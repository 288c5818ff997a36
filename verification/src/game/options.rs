//! Run options, set from the title screen.
//!
//! Every option is a small closed set cycled with left/right, so the options
//! screen needs no text entry and the whole game stays on the arrow keys.

use vstd::prelude::*;

verus! {

/// A setting that cycles through a fixed list of values: `next` and `prev`
/// step round the list, wrapping at either end, and `index` is a value's
/// place in it.
pub trait Cycle: Sized + Copy {
    fn label(self) -> &'static str;

    fn index(self) -> usize;

    fn next(self) -> Self;

    fn prev(self) -> Self;
}

#[derive(Debug, Clone, Copy, PartialEq, Eq, Structural)]
pub enum MapLength {
    Short,
    Standard,
    Long,
}

impl MapLength {
    pub open spec fn rows_spec(self) -> usize {
        match self {
            MapLength::Short => 3,
            MapLength::Standard => 5,
            MapLength::Long => 8,
        }
    }

    /// How many rows a map of this length has.
    pub fn rows(self) -> (r: usize)
        ensures
            r == self.rows_spec(),
    {
        match self {
            MapLength::Short => 3,
            MapLength::Standard => 5,
            MapLength::Long => 8,
        }
    }
}

impl MapLength {
    /// Every value, in cycling order.
    pub const ALL: &'static [MapLength; 3] = &[MapLength::Short, MapLength::Standard, MapLength::Long];

    /// This value's place in [`MapLength::ALL`].
    pub open spec fn rank(self) -> int {
        match self {
            MapLength::Short => 0,
            MapLength::Standard => 1,
            MapLength::Long => 2,
        }
    }

    /// The value at place `i` of [`MapLength::ALL`] (taken round the cycle).
    pub open spec fn at_rank(i: int) -> MapLength {
        let i = i % 3;
        if i == 0 {
            MapLength::Short
        } else
        if i == 1 {
            MapLength::Standard
        } else
        {
            MapLength::Long
        }
    }

    pub open spec fn label_view(self) -> Seq<char> {
        match self {
            MapLength::Short => "Short (3 rows)"@,
            MapLength::Standard => "Standard (5 rows)"@,
            MapLength::Long => "Long (8 rows)"@,
        }
    }
}

impl Cycle for MapLength {
    fn label(self) -> (r: &'static str)
        ensures
            r@ == self.label_view(),
    {
        match self {
            MapLength::Short => "Short (3 rows)",
            MapLength::Standard => "Standard (5 rows)",
            MapLength::Long => "Long (8 rows)",
        }
    }

    fn index(self) -> (r: usize)
        ensures
            r == self.rank(),
    {
        match self {
            MapLength::Short => 0,
            MapLength::Standard => 1,
            MapLength::Long => 2,
        }
    }

    fn next(self) -> (r: Self)
        ensures
            r == MapLength::at_rank(self.rank() + 1),
    {
        match self {
            MapLength::Short => MapLength::Standard,
            MapLength::Standard => MapLength::Long,
            MapLength::Long => MapLength::Short,
        }
    }

    fn prev(self) -> (r: Self)
        ensures
            r == MapLength::at_rank(self.rank() + 3 - 1),
    {
        match self {
            MapLength::Short => MapLength::Long,
            MapLength::Standard => MapLength::Short,
            MapLength::Long => MapLength::Standard,
        }
    }
}

#[derive(Debug, Clone, Copy, PartialEq, Eq, Structural)]
pub enum Difficulty {
    Calm,
    Standard,
    Harsh,
}

impl Difficulty {
    /// Every value, in cycling order.
    pub const ALL: &'static [Difficulty; 3] = &[Difficulty::Calm, Difficulty::Standard, Difficulty::Harsh];

    /// This value's place in [`Difficulty::ALL`].
    pub open spec fn rank(self) -> int {
        match self {
            Difficulty::Calm => 0,
            Difficulty::Standard => 1,
            Difficulty::Harsh => 2,
        }
    }

    /// The value at place `i` of [`Difficulty::ALL`] (taken round the cycle).
    pub open spec fn at_rank(i: int) -> Difficulty {
        let i = i % 3;
        if i == 0 {
            Difficulty::Calm
        } else
        if i == 1 {
            Difficulty::Standard
        } else
        {
            Difficulty::Harsh
        }
    }

    pub open spec fn label_view(self) -> Seq<char> {
        match self {
            Difficulty::Calm => "Calm"@,
            Difficulty::Standard => "Standard"@,
            Difficulty::Harsh => "Harsh"@,
        }
    }
}

impl Cycle for Difficulty {
    fn label(self) -> (r: &'static str)
        ensures
            r@ == self.label_view(),
    {
        match self {
            Difficulty::Calm => "Calm",
            Difficulty::Standard => "Standard",
            Difficulty::Harsh => "Harsh",
        }
    }

    fn index(self) -> (r: usize)
        ensures
            r == self.rank(),
    {
        match self {
            Difficulty::Calm => 0,
            Difficulty::Standard => 1,
            Difficulty::Harsh => 2,
        }
    }

    fn next(self) -> (r: Self)
        ensures
            r == Difficulty::at_rank(self.rank() + 1),
    {
        match self {
            Difficulty::Calm => Difficulty::Standard,
            Difficulty::Standard => Difficulty::Harsh,
            Difficulty::Harsh => Difficulty::Calm,
        }
    }

    fn prev(self) -> (r: Self)
        ensures
            r == Difficulty::at_rank(self.rank() + 3 - 1),
    {
        match self {
            Difficulty::Calm => Difficulty::Harsh,
            Difficulty::Standard => Difficulty::Calm,
            Difficulty::Harsh => Difficulty::Standard,
        }
    }
}

#[derive(Debug, Clone, Copy, PartialEq, Eq, Structural)]
pub enum LogSpeed {
    Instant,
    Normal,
    Slow,
}

impl LogSpeed {
    pub open spec fn ticks_spec(self) -> u8 {
        match self {
            LogSpeed::Instant => 0,
            LogSpeed::Normal => 1,
            LogSpeed::Slow => 3,
        }
    }

    /// Loop ticks between revealing one more log entry. Zero means reveal the
    /// whole thing immediately.
    pub fn ticks_per_entry(self) -> (r: u8)
        ensures
            r == self.ticks_spec(),
    {
        match self {
            LogSpeed::Instant => 0,
            LogSpeed::Normal => 1,
            LogSpeed::Slow => 3,
        }
    }
}

impl LogSpeed {
    /// Every value, in cycling order.
    pub const ALL: &'static [LogSpeed; 3] = &[LogSpeed::Instant, LogSpeed::Normal, LogSpeed::Slow];

    /// This value's place in [`LogSpeed::ALL`].
    pub open spec fn rank(self) -> int {
        match self {
            LogSpeed::Instant => 0,
            LogSpeed::Normal => 1,
            LogSpeed::Slow => 2,
        }
    }

    /// The value at place `i` of [`LogSpeed::ALL`] (taken round the cycle).
    pub open spec fn at_rank(i: int) -> LogSpeed {
        let i = i % 3;
        if i == 0 {
            LogSpeed::Instant
        } else
        if i == 1 {
            LogSpeed::Normal
        } else
        {
            LogSpeed::Slow
        }
    }

    pub open spec fn label_view(self) -> Seq<char> {
        match self {
            LogSpeed::Instant => "Instant"@,
            LogSpeed::Normal => "Normal"@,
            LogSpeed::Slow => "Slow"@,
        }
    }
}

impl Cycle for LogSpeed {
    fn label(self) -> (r: &'static str)
        ensures
            r@ == self.label_view(),
    {
        match self {
            LogSpeed::Instant => "Instant",
            LogSpeed::Normal => "Normal",
            LogSpeed::Slow => "Slow",
        }
    }

    fn index(self) -> (r: usize)
        ensures
            r == self.rank(),
    {
        match self {
            LogSpeed::Instant => 0,
            LogSpeed::Normal => 1,
            LogSpeed::Slow => 2,
        }
    }

    fn next(self) -> (r: Self)
        ensures
            r == LogSpeed::at_rank(self.rank() + 1),
    {
        match self {
            LogSpeed::Instant => LogSpeed::Normal,
            LogSpeed::Normal => LogSpeed::Slow,
            LogSpeed::Slow => LogSpeed::Instant,
        }
    }

    fn prev(self) -> (r: Self)
        ensures
            r == LogSpeed::at_rank(self.rank() + 3 - 1),
    {
        match self {
            LogSpeed::Instant => LogSpeed::Slow,
            LogSpeed::Normal => LogSpeed::Instant,
            LogSpeed::Slow => LogSpeed::Normal,
        }
    }
}

#[derive(Debug, Clone, Copy, PartialEq, Eq, Structural)]
pub struct Options {
    pub map_length: MapLength,
    pub difficulty: Difficulty,
    pub log_speed: LogSpeed,
}

impl Default for Options {
    fn default() -> (r: Self)
        ensures
            r == (Options { map_length: MapLength::Standard, difficulty: Difficulty::Standard, log_speed: LogSpeed::Normal }),
    {
        Options { map_length: MapLength::Standard, difficulty: Difficulty::Standard, log_speed: LogSpeed::Normal }
    }
}

/// Which row of the options screen is selected.
#[derive(Debug, Clone, Copy, PartialEq, Eq, Structural)]
pub enum OptionField {
    MapLength,
    Difficulty,
    LogSpeed,
}

impl OptionField {
    /// Every value, in cycling order.
    pub const ALL: &'static [OptionField; 3] = &[OptionField::MapLength, OptionField::Difficulty, OptionField::LogSpeed];

    /// This value's place in [`OptionField::ALL`].
    pub open spec fn rank(self) -> int {
        match self {
            OptionField::MapLength => 0,
            OptionField::Difficulty => 1,
            OptionField::LogSpeed => 2,
        }
    }

    /// The value at place `i` of [`OptionField::ALL`] (taken round the cycle).
    pub open spec fn at_rank(i: int) -> OptionField {
        let i = i % 3;
        if i == 0 {
            OptionField::MapLength
        } else
        if i == 1 {
            OptionField::Difficulty
        } else
        {
            OptionField::LogSpeed
        }
    }

    pub open spec fn label_view(self) -> Seq<char> {
        match self {
            OptionField::MapLength => "Map length"@,
            OptionField::Difficulty => "Difficulty"@,
            OptionField::LogSpeed => "Log speed"@,
        }
    }
}

impl Cycle for OptionField {
    fn label(self) -> (r: &'static str)
        ensures
            r@ == self.label_view(),
    {
        match self {
            OptionField::MapLength => "Map length",
            OptionField::Difficulty => "Difficulty",
            OptionField::LogSpeed => "Log speed",
        }
    }

    fn index(self) -> (r: usize)
        ensures
            r == self.rank(),
    {
        match self {
            OptionField::MapLength => 0,
            OptionField::Difficulty => 1,
            OptionField::LogSpeed => 2,
        }
    }

    fn next(self) -> (r: Self)
        ensures
            r == OptionField::at_rank(self.rank() + 1),
    {
        match self {
            OptionField::MapLength => OptionField::Difficulty,
            OptionField::Difficulty => OptionField::LogSpeed,
            OptionField::LogSpeed => OptionField::MapLength,
        }
    }

    fn prev(self) -> (r: Self)
        ensures
            r == OptionField::at_rank(self.rank() + 3 - 1),
    {
        match self {
            OptionField::MapLength => OptionField::LogSpeed,
            OptionField::Difficulty => OptionField::MapLength,
            OptionField::LogSpeed => OptionField::Difficulty,
        }
    }
}

impl Options {
    /// Cycle one field forwards or backwards; the other fields keep their
    /// values.
    pub fn adjust(&mut self, field: OptionField, forward: bool)
        ensures
            *final(self) == match field {
                OptionField::MapLength => Options {
                    map_length: MapLength::at_rank(old(self).map_length.rank() + if forward { 1int } else { 2int }),
                    ..*old(self)
                },
                OptionField::Difficulty => Options {
                    difficulty: Difficulty::at_rank(old(self).difficulty.rank() + if forward { 1int } else { 2int }),
                    ..*old(self)
                },
                OptionField::LogSpeed => Options {
                    log_speed: LogSpeed::at_rank(old(self).log_speed.rank() + if forward { 1int } else { 2int }),
                    ..*old(self)
                },
            },
    {
        match field {
            OptionField::MapLength => {
                self.map_length = if forward {
                    self.map_length.next()
                } else {
                    self.map_length.prev()
                }
            },
            OptionField::Difficulty => {
                self.difficulty = if forward {
                    self.difficulty.next()
                } else {
                    self.difficulty.prev()
                }
            },
            OptionField::LogSpeed => {
                self.log_speed = if forward {
                    self.log_speed.next()
                } else {
                    self.log_speed.prev()
                }
            },
        }
    }

    pub fn value_label(&self, field: OptionField) -> (r: &'static str)
        ensures
            r@ == match field {
                OptionField::MapLength => self.map_length.label_view(),
                OptionField::Difficulty => self.difficulty.label_view(),
                OptionField::LogSpeed => self.log_speed.label_view(),
            },
    {
        match field {
            OptionField::MapLength => self.map_length.label(),
            OptionField::Difficulty => self.difficulty.label(),
            OptionField::LogSpeed => self.log_speed.label(),
        }
    }
}

/// Cycling a MapLength forwards then back, or back then forwards, returns to
/// where it began; stepping forwards through all 3 values wraps round to
/// the start; every value sits at its own place in the list.
pub proof fn lemma_map_length_cycles(v: MapLength)
    ensures
        MapLength::at_rank(MapLength::at_rank(v.rank() + 1).rank() + 3 - 1) == v,
        MapLength::at_rank(MapLength::at_rank(v.rank() + 3 - 1).rank() + 1) == v,
        MapLength::at_rank(MapLength::at_rank(MapLength::at_rank(v.rank() + 1).rank() + 1).rank() + 1) == v,
        MapLength::at_rank(v.rank() as int) == v,
        MapLength::ALL[v.rank() as int] == v,
        forall|i: int| 0 <= i < 3 ==> (#[trigger] MapLength::ALL[i]).rank() == i,
{
}

/// Cycling a Difficulty forwards then back, or back then forwards, returns to
/// where it began; stepping forwards through all 3 values wraps round to
/// the start; every value sits at its own place in the list.
pub proof fn lemma_difficulty_cycles(v: Difficulty)
    ensures
        Difficulty::at_rank(Difficulty::at_rank(v.rank() + 1).rank() + 3 - 1) == v,
        Difficulty::at_rank(Difficulty::at_rank(v.rank() + 3 - 1).rank() + 1) == v,
        Difficulty::at_rank(Difficulty::at_rank(Difficulty::at_rank(v.rank() + 1).rank() + 1).rank() + 1) == v,
        Difficulty::at_rank(v.rank() as int) == v,
        Difficulty::ALL[v.rank() as int] == v,
        forall|i: int| 0 <= i < 3 ==> (#[trigger] Difficulty::ALL[i]).rank() == i,
{
}

/// Cycling a LogSpeed forwards then back, or back then forwards, returns to
/// where it began; stepping forwards through all 3 values wraps round to
/// the start; every value sits at its own place in the list.
pub proof fn lemma_log_speed_cycles(v: LogSpeed)
    ensures
        LogSpeed::at_rank(LogSpeed::at_rank(v.rank() + 1).rank() + 3 - 1) == v,
        LogSpeed::at_rank(LogSpeed::at_rank(v.rank() + 3 - 1).rank() + 1) == v,
        LogSpeed::at_rank(LogSpeed::at_rank(LogSpeed::at_rank(v.rank() + 1).rank() + 1).rank() + 1) == v,
        LogSpeed::at_rank(v.rank() as int) == v,
        LogSpeed::ALL[v.rank() as int] == v,
        forall|i: int| 0 <= i < 3 ==> (#[trigger] LogSpeed::ALL[i]).rank() == i,
{
}

/// Cycling a OptionField forwards then back, or back then forwards, returns to
/// where it began; stepping forwards through all 3 values wraps round to
/// the start; every value sits at its own place in the list.
pub proof fn lemma_option_field_cycles(v: OptionField)
    ensures
        OptionField::at_rank(OptionField::at_rank(v.rank() + 1).rank() + 3 - 1) == v,
        OptionField::at_rank(OptionField::at_rank(v.rank() + 3 - 1).rank() + 1) == v,
        OptionField::at_rank(OptionField::at_rank(OptionField::at_rank(v.rank() + 1).rank() + 1).rank() + 1) == v,
        OptionField::at_rank(v.rank() as int) == v,
        OptionField::ALL[v.rank() as int] == v,
        forall|i: int| 0 <= i < 3 ==> (#[trigger] OptionField::ALL[i]).rank() == i,
{
}

/// Map lengths are ordered by rows, and every one is playable: generation
/// needs at least a start row and a boss row.
pub proof fn lemma_map_lengths_ordered()
    ensures
        MapLength::Short.rows_spec() < MapLength::Standard.rows_spec(),
        MapLength::Standard.rows_spec() < MapLength::Long.rows_spec(),
        forall|v: MapLength| #[trigger] v.rows_spec() >= 2,
{
}

} // verus!

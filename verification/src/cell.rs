//! Cell labels and their fixed weights.

use vstd::prelude::*;

verus! {

/// Label of one grid cell: structural (`Start`, `Exit`, `Wall`, `Path`),
/// one of five rewards, or one of eleven dangers.
#[derive(Clone, Copy, Debug, PartialEq, Eq, Hash, Structural)]
pub enum CellType {
    Start,
    Exit,
    Wall,
    Path,
    Marshmallows,
    GummyBears,
    Cookies,
    Candy,
    Chocolate,
    Zombie,
    Phantom,
    Witch,
    Fog,
    Shadows,
    Crow,
    BlackCat,
    Skeleton,
    Spider,
    Bat,
    Pumpkin,
}

impl CellType {
    /// The weight a walker pays (or gains, when negative) for entering a cell.
    pub open spec fn spec_weight(self) -> int {
        match self {
            CellType::Start => 0,
            CellType::Exit => 0,
            CellType::Wall => 0,
            CellType::Path => 0,
            CellType::Marshmallows => -2,
            CellType::GummyBears => -3,
            CellType::Cookies => -4,
            CellType::Candy => -2,
            CellType::Chocolate => -6,
            CellType::Zombie => 7,
            CellType::Phantom => 6,
            CellType::Witch => 9,
            CellType::Fog => 3,
            CellType::Shadows => 4,
            CellType::Crow => 5,
            CellType::BlackCat => 2,
            CellType::Skeleton => 5,
            CellType::Spider => 3,
            CellType::Bat => 1,
            CellType::Pumpkin => 2,
        }
    }

    /// Reward labels.
    pub open spec fn reward(self) -> bool {
        self == CellType::Marshmallows || self == CellType::GummyBears || self == CellType::Cookies
            || self == CellType::Candy || self == CellType::Chocolate
    }

    /// Danger labels.
    pub open spec fn danger(self) -> bool {
        self == CellType::Zombie || self == CellType::Phantom || self == CellType::Witch || self
            == CellType::Fog || self == CellType::Shadows || self == CellType::Crow || self
            == CellType::BlackCat || self == CellType::Skeleton || self == CellType::Spider || self
            == CellType::Bat || self == CellType::Pumpkin
    }

    /// Reward or danger.
    pub open spec fn artifact(self) -> bool {
        self.reward() || self.danger()
    }

    /// Labels a walker may enter: everything but `Wall`.
    pub open spec fn traversable(self) -> bool {
        self != CellType::Wall
    }

    /// Human-readable name of the label.
    pub open spec fn label(self) -> Seq<char> {
        match self {
            CellType::Start => "Start"@,
            CellType::Exit => "Exit"@,
            CellType::Wall => "Wall"@,
            CellType::Path => "Path"@,
            CellType::Marshmallows => "Marshmallows"@,
            CellType::GummyBears => "Gummy Bears"@,
            CellType::Cookies => "Cookies"@,
            CellType::Candy => "Candy"@,
            CellType::Chocolate => "Chocolate"@,
            CellType::Zombie => "Zombie"@,
            CellType::Phantom => "Ghost"@,
            CellType::Witch => "Witch"@,
            CellType::Fog => "Fog"@,
            CellType::Shadows => "Shadows"@,
            CellType::Crow => "Crow"@,
            CellType::BlackCat => "Black Cat"@,
            CellType::Skeleton => "Skeleton"@,
            CellType::Spider => "Spider"@,
            CellType::Bat => "Bat"@,
            CellType::Pumpkin => "Pumpkin"@,
        }
    }

    pub fn weight(&self) -> (w: i32)
        ensures
            w == self.spec_weight(),
    {
        match self {
            CellType::Start => 0,
            CellType::Exit => 0,
            CellType::Wall => 0,
            CellType::Path => 0,
            CellType::Marshmallows => -2,
            CellType::GummyBears => -3,
            CellType::Cookies => -4,
            CellType::Candy => -2,
            CellType::Chocolate => -6,
            CellType::Zombie => 7,
            CellType::Phantom => 6,
            CellType::Witch => 9,
            CellType::Fog => 3,
            CellType::Shadows => 4,
            CellType::Crow => 5,
            CellType::BlackCat => 2,
            CellType::Skeleton => 5,
            CellType::Spider => 3,
            CellType::Bat => 1,
            CellType::Pumpkin => 2,
        }
    }

    pub fn to_string(self) -> (s: &'static str)
        ensures
            s@ == self.label(),
    {
        match self {
            CellType::Start => "Start",
            CellType::Exit => "Exit",
            CellType::Wall => "Wall",
            CellType::Path => "Path",
            CellType::Marshmallows => "Marshmallows",
            CellType::GummyBears => "Gummy Bears",
            CellType::Cookies => "Cookies",
            CellType::Candy => "Candy",
            CellType::Chocolate => "Chocolate",
            CellType::Zombie => "Zombie",
            CellType::Phantom => "Ghost",
            CellType::Witch => "Witch",
            CellType::Fog => "Fog",
            CellType::Shadows => "Shadows",
            CellType::Crow => "Crow",
            CellType::BlackCat => "Black Cat",
            CellType::Skeleton => "Skeleton",
            CellType::Spider => "Spider",
            CellType::Bat => "Bat",
            CellType::Pumpkin => "Pumpkin",
        }
    }

    pub fn is_traversable(&self) -> (b: bool)
        ensures
            b == self.traversable(),
    {
        !matches!(self, CellType::Wall)
    }

    pub fn is_reward(&self) -> (b: bool)
        ensures
            b == self.reward(),
    {
        matches!(
            self,
            CellType::Marshmallows | CellType::GummyBears | CellType::Cookies | CellType::Candy
                | CellType::Chocolate
        )
    }

    pub fn is_danger(&self) -> (b: bool)
        ensures
            b == self.danger(),
    {
        !matches!(self, CellType::Start | CellType::Exit | CellType::Wall | CellType::Path)
            && !self.is_reward()
    }

    /// Structural labels weigh nothing, rewards weigh between -6 and -1,
    /// dangers between 1 and 9.
    pub proof fn weight_by_class(self)
        ensures
            !self.artifact() ==> self.spec_weight() == 0,
            self.reward() ==> -6 <= self.spec_weight() <= -1,
            self.danger() ==> 1 <= self.spec_weight() <= 9,
            !(self.reward() && self.danger()),
    {
    }
}

/// The five reward labels, in their fixed order.
pub open spec fn reward_seq() -> Seq<CellType> {
    seq![
        CellType::Marshmallows,
        CellType::GummyBears,
        CellType::Cookies,
        CellType::Candy,
        CellType::Chocolate,
    ]
}

/// The eleven danger labels, in their fixed order.
pub open spec fn danger_seq() -> Seq<CellType> {
    seq![
        CellType::Zombie,
        CellType::Phantom,
        CellType::Witch,
        CellType::Fog,
        CellType::Shadows,
        CellType::Crow,
        CellType::BlackCat,
        CellType::Skeleton,
        CellType::Spider,
        CellType::Bat,
        CellType::Pumpkin,
    ]
}

pub fn rewards() -> (v: Vec<CellType>)
    ensures
        v@ == reward_seq(),
        forall|i: int| 0 <= i < v.len() ==> (#[trigger] v[i]).reward(),
{
    let v = vec![
        CellType::Marshmallows,
        CellType::GummyBears,
        CellType::Cookies,
        CellType::Candy,
        CellType::Chocolate,
    ];
    assert(v@ =~= reward_seq());
    v
}

pub fn dangers() -> (v: Vec<CellType>)
    ensures
        v@ == danger_seq(),
        forall|i: int| 0 <= i < v.len() ==> (#[trigger] v[i]).danger(),
{
    let v = vec![
        CellType::Zombie,
        CellType::Phantom,
        CellType::Witch,
        CellType::Fog,
        CellType::Shadows,
        CellType::Crow,
        CellType::BlackCat,
        CellType::Skeleton,
        CellType::Spider,
        CellType::Bat,
        CellType::Pumpkin,
    ];
    assert(v@ =~= danger_seq());
    v
}

} // verus!

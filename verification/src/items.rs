//! The twenty-one distinct items and their numbering.
use vstd::prelude::*;

verus! {

/// How many distinct items there are.
pub const ITEM_COUNT: usize = 21;

/// A distinct item. Items are numbered in the order in which they are declared.
#[derive(Clone, Copy, Debug, PartialEq, Eq, Structural)]
pub enum Item {
    ETank,
    Missile,
    Super,
    PowerBomb,
    Bombs,
    Charge,
    Ice,
    HiJump,
    SpeedBooster,
    Wave,
    Spazer,
    SpringBall,
    Varia,
    Gravity,
    XRayScope,
    Plasma,
    Grapple,
    SpaceJump,
    ScrewAttack,
    Morph,
    ReserveTank,
}

impl Item {
    /// The number of the item.
    pub open spec fn id(self) -> int {
        match self {
            Item::ETank => 0,
            Item::Missile => 1,
            Item::Super => 2,
            Item::PowerBomb => 3,
            Item::Bombs => 4,
            Item::Charge => 5,
            Item::Ice => 6,
            Item::HiJump => 7,
            Item::SpeedBooster => 8,
            Item::Wave => 9,
            Item::Spazer => 10,
            Item::SpringBall => 11,
            Item::Varia => 12,
            Item::Gravity => 13,
            Item::XRayScope => 14,
            Item::Plasma => 15,
            Item::Grapple => 16,
            Item::SpaceJump => 17,
            Item::ScrewAttack => 18,
            Item::Morph => 19,
            Item::ReserveTank => 20,
        }
    }

    /// The item with a given number.
    pub open spec fn with_id(id: int) -> Item {
        choose|item: Item| item.id() == id
    }

    /// The name under which the item is listed.
    pub open spec fn label(self) -> Seq<char> {
        match self {
            Item::ETank => "ETank"@,
            Item::Missile => "Missile"@,
            Item::Super => "Super"@,
            Item::PowerBomb => "PowerBomb"@,
            Item::Bombs => "Bombs"@,
            Item::Charge => "Charge"@,
            Item::Ice => "Ice"@,
            Item::HiJump => "HiJump"@,
            Item::SpeedBooster => "SpeedBooster"@,
            Item::Wave => "Wave"@,
            Item::Spazer => "Spazer"@,
            Item::SpringBall => "SpringBall"@,
            Item::Varia => "Varia"@,
            Item::Gravity => "Gravity"@,
            Item::XRayScope => "XRayScope"@,
            Item::Plasma => "Plasma"@,
            Item::Grapple => "Grapple"@,
            Item::SpaceJump => "SpaceJump"@,
            Item::ScrewAttack => "ScrewAttack"@,
            Item::Morph => "Morph"@,
            Item::ReserveTank => "ReserveTank"@,
        }
    }

    /// Whether the item is one of the five that occur more than once.
    pub open spec fn is_expansion(self) -> bool {
        self is Missile || self is Super || self is PowerBomb || self is ETank
            || self is ReserveTank
    }

    /// The number of the item, as an index into a table with one entry per item.
    pub fn index(self) -> (id: usize)
        ensures
            id == self.id(),
            id < ITEM_COUNT,
    {
        match self {
            Item::ETank => 0,
            Item::Missile => 1,
            Item::Super => 2,
            Item::PowerBomb => 3,
            Item::Bombs => 4,
            Item::Charge => 5,
            Item::Ice => 6,
            Item::HiJump => 7,
            Item::SpeedBooster => 8,
            Item::Wave => 9,
            Item::Spazer => 10,
            Item::SpringBall => 11,
            Item::Varia => 12,
            Item::Gravity => 13,
            Item::XRayScope => 14,
            Item::Plasma => 15,
            Item::Grapple => 16,
            Item::SpaceJump => 17,
            Item::ScrewAttack => 18,
            Item::Morph => 19,
            Item::ReserveTank => 20,
        }
    }

    /// The item with number `id`, if there is one.
    pub fn from_index(id: usize) -> (item: Option<Item>)
        ensures
            item is Some <==> id < ITEM_COUNT,
            item matches Some(found) ==> found.id() == id && found == Item::with_id(id as int),
    {
        proof {
            if id < ITEM_COUNT {
                lemma_ids_items(id as int);
            }
        }
        match id {
            0 => Some(Item::ETank),
            1 => Some(Item::Missile),
            2 => Some(Item::Super),
            3 => Some(Item::PowerBomb),
            4 => Some(Item::Bombs),
            5 => Some(Item::Charge),
            6 => Some(Item::Ice),
            7 => Some(Item::HiJump),
            8 => Some(Item::SpeedBooster),
            9 => Some(Item::Wave),
            10 => Some(Item::Spazer),
            11 => Some(Item::SpringBall),
            12 => Some(Item::Varia),
            13 => Some(Item::Gravity),
            14 => Some(Item::XRayScope),
            15 => Some(Item::Plasma),
            16 => Some(Item::Grapple),
            17 => Some(Item::SpaceJump),
            18 => Some(Item::ScrewAttack),
            19 => Some(Item::Morph),
            20 => Some(Item::ReserveTank),
            _ => None,
        }
    }

    /// The name under which the item is listed.
    pub fn name(self) -> (name: &'static str)
        ensures
            name@ == self.label(),
    {
        match self {
            Item::ETank => "ETank",
            Item::Missile => "Missile",
            Item::Super => "Super",
            Item::PowerBomb => "PowerBomb",
            Item::Bombs => "Bombs",
            Item::Charge => "Charge",
            Item::Ice => "Ice",
            Item::HiJump => "HiJump",
            Item::SpeedBooster => "SpeedBooster",
            Item::Wave => "Wave",
            Item::Spazer => "Spazer",
            Item::SpringBall => "SpringBall",
            Item::Varia => "Varia",
            Item::Gravity => "Gravity",
            Item::XRayScope => "XRayScope",
            Item::Plasma => "Plasma",
            Item::Grapple => "Grapple",
            Item::SpaceJump => "SpaceJump",
            Item::ScrewAttack => "ScrewAttack",
            Item::Morph => "Morph",
            Item::ReserveTank => "ReserveTank",
        }
    }

    /// Whether the item is one of the five that occur more than once.
    pub fn occurs_repeatedly(self) -> (yes: bool)
        ensures
            yes == self.is_expansion(),
    {
        match self {
            Item::Missile | Item::Super | Item::PowerBomb | Item::ETank | Item::ReserveTank => true,
            _ => false,
        }
    }
}

/// Every item once, by number.
pub open spec fn all_items() -> Seq<Item> {
    Seq::new(ITEM_COUNT as nat, |id: int| Item::with_id(id))
}

/// No two items have the same number.
pub proof fn lemma_item_ids(item: Item)
    ensures
        0 <= item.id() < ITEM_COUNT,
        Item::with_id(item.id()) == item,
{
}

/// Every number below the number of items belongs to an item.
pub proof fn lemma_ids_items(id: int)
    requires
        0 <= id < ITEM_COUNT,
    ensures
        Item::with_id(id).id() == id,
{
    assert(Item::ETank.id() == id
        || Item::Missile.id() == id
        || Item::Super.id() == id
        || Item::PowerBomb.id() == id
        || Item::Bombs.id() == id
        || Item::Charge.id() == id
        || Item::Ice.id() == id
        || Item::HiJump.id() == id
        || Item::SpeedBooster.id() == id
        || Item::Wave.id() == id
        || Item::Spazer.id() == id
        || Item::SpringBall.id() == id
        || Item::Varia.id() == id
        || Item::Gravity.id() == id
        || Item::XRayScope.id() == id
        || Item::Plasma.id() == id
        || Item::Grapple.id() == id
        || Item::SpaceJump.id() == id
        || Item::ScrewAttack.id() == id
        || Item::Morph.id() == id
        || Item::ReserveTank.id() == id);
}

/// Different items have different names.
pub proof fn lemma_labels_differ(a: Item, b: Item)
    requires
        a != b,
    ensures
        a.label() != b.label(),
{
    reveal_strlit("ETank");
    reveal_strlit("Missile");
    reveal_strlit("Super");
    reveal_strlit("PowerBomb");
    reveal_strlit("Bombs");
    reveal_strlit("Charge");
    reveal_strlit("Ice");
    reveal_strlit("HiJump");
    reveal_strlit("SpeedBooster");
    reveal_strlit("Wave");
    reveal_strlit("Spazer");
    reveal_strlit("SpringBall");
    reveal_strlit("Varia");
    reveal_strlit("Gravity");
    reveal_strlit("XRayScope");
    reveal_strlit("Plasma");
    reveal_strlit("Grapple");
    reveal_strlit("SpaceJump");
    reveal_strlit("ScrewAttack");
    reveal_strlit("Morph");
    reveal_strlit("ReserveTank");
    let x = a.label();
    let y = b.label();
    assert(x.len() != y.len() || x[0] != y[0] || x[1] != y[1] || (x.len() > 3 && x[3] != y[3]));
}

}

//! Everything the player can find, craft, carry or take apart.

use vstd::prelude::*;
use vstd::string::*;

verus! {

/// One kind of thing the player can hold. The declaration order is the
/// display order used by every sorted list (see [`Item::rank`]).
#[derive(Clone, Copy, Debug, PartialEq, Eq, Structural, Hash, PartialOrd, Ord)]
pub enum Item {
    Stick,
    Branch,
    Stone,
    Vine,
    Cord,
    StoneAxe,
    Arrow,
    WoodenBow,
    PlasticBottle,
    CopperWire,
    Coil,
    Pole,
    Microcontroller,
    Speaker,
    MetalDetector,
    Battery,
    SolarPanel,
    SolarCharger,
    CircuitBoard,
    Umbrella,
    Fabric,
    ElectricMotor,
    SteelBolt,
    RustyMetal,
    MetalKnife,
    ElectronicToy,
    Meat,
    Bone,
    Hide,
    Fur,
    Satchel,
    BoneNeedle,
}

/// The position of `item` in the declaration order.
pub open spec fn item_rank(item: Item) -> nat {
    match item {
        Item::Stick => 0,
        Item::Branch => 1,
        Item::Stone => 2,
        Item::Vine => 3,
        Item::Cord => 4,
        Item::StoneAxe => 5,
        Item::Arrow => 6,
        Item::WoodenBow => 7,
        Item::PlasticBottle => 8,
        Item::CopperWire => 9,
        Item::Coil => 10,
        Item::Pole => 11,
        Item::Microcontroller => 12,
        Item::Speaker => 13,
        Item::MetalDetector => 14,
        Item::Battery => 15,
        Item::SolarPanel => 16,
        Item::SolarCharger => 17,
        Item::CircuitBoard => 18,
        Item::Umbrella => 19,
        Item::Fabric => 20,
        Item::ElectricMotor => 21,
        Item::SteelBolt => 22,
        Item::RustyMetal => 23,
        Item::MetalKnife => 24,
        Item::ElectronicToy => 25,
        Item::Meat => 26,
        Item::Bone => 27,
        Item::Hide => 28,
        Item::Fur => 29,
        Item::Satchel => 30,
        Item::BoneNeedle => 31,
    }
}

/// How many kinds of item there are.
pub const ITEM_KINDS: usize = 32;

/// The item at position `r` of the declaration order (for `0 <= r < 32`).
pub open spec fn item_at(r: int) -> Item {
    item_order()[r]
}

/// Every item, in declaration order.
pub open spec fn item_order() -> Seq<Item> {
    seq![Item::Stick, Item::Branch, Item::Stone, Item::Vine, Item::Cord, Item::StoneAxe, Item::Arrow, Item::WoodenBow, Item::PlasticBottle, Item::CopperWire, Item::Coil, Item::Pole, Item::Microcontroller, Item::Speaker, Item::MetalDetector, Item::Battery, Item::SolarPanel, Item::SolarCharger, Item::CircuitBoard, Item::Umbrella, Item::Fabric, Item::ElectricMotor, Item::SteelBolt, Item::RustyMetal, Item::MetalKnife, Item::ElectronicToy, Item::Meat, Item::Bone, Item::Hide, Item::Fur, Item::Satchel, Item::BoneNeedle]
}

/// `item_rank` and `item_at` are inverse.
pub proof fn lemma_rank_item_at()
    ensures
        forall|i: Item| #[trigger] item_at(item_rank(i) as int) == i,
        forall|r: int| 0 <= r < ITEM_KINDS ==> #[trigger] item_rank(item_at(r)) == r,
        forall|i: Item| #[trigger] item_rank(i) < ITEM_KINDS,
{
}

/// Two items with the same rank are the same item.
pub proof fn lemma_item_rank_injective(a: Item, b: Item)
    ensures
        item_rank(a) == item_rank(b) <==> a == b,
{
}

/// The English display name of an item.
pub open spec fn item_name(item: Item) -> Seq<char> {
    match item {
        Item::Stick => "Stick"@,
        Item::Branch => "Branch"@,
        Item::Stone => "Stone"@,
        Item::Vine => "Vine"@,
        Item::Cord => "Cord"@,
        Item::StoneAxe => "Stone Axe"@,
        Item::Arrow => "Arrow"@,
        Item::WoodenBow => "Wooden Bow"@,
        Item::PlasticBottle => "Plastic Bottle"@,
        Item::CopperWire => "Copper Wire"@,
        Item::Coil => "Coil"@,
        Item::Pole => "Pole"@,
        Item::Microcontroller => "Microcontroller"@,
        Item::Speaker => "Speaker"@,
        Item::MetalDetector => "Metal Detector"@,
        Item::Battery => "Battery"@,
        Item::SolarPanel => "Solar Panel"@,
        Item::SolarCharger => "Solar Charger"@,
        Item::CircuitBoard => "Circuit Board"@,
        Item::Umbrella => "Umbrella"@,
        Item::Fabric => "Fabric"@,
        Item::ElectricMotor => "Electric Motor"@,
        Item::SteelBolt => "Steel Bolt"@,
        Item::RustyMetal => "Rusty Metal"@,
        Item::MetalKnife => "Metal Knife"@,
        Item::ElectronicToy => "Electronic Toy"@,
        Item::Meat => "Meat"@,
        Item::Bone => "Bone"@,
        Item::Hide => "Hide"@,
        Item::Fur => "Fur"@,
        Item::Satchel => "Satchel"@,
        Item::BoneNeedle => "Bone Needle"@,
    }
}

impl Item {
    /// The position of this item in the declaration order, which is the
    /// order every item list is sorted by.
    pub fn rank(self) -> (r: u8)
        ensures
            r as nat == item_rank(self),
    {
        match self {
            Item::Stick => 0,
            Item::Branch => 1,
            Item::Stone => 2,
            Item::Vine => 3,
            Item::Cord => 4,
            Item::StoneAxe => 5,
            Item::Arrow => 6,
            Item::WoodenBow => 7,
            Item::PlasticBottle => 8,
            Item::CopperWire => 9,
            Item::Coil => 10,
            Item::Pole => 11,
            Item::Microcontroller => 12,
            Item::Speaker => 13,
            Item::MetalDetector => 14,
            Item::Battery => 15,
            Item::SolarPanel => 16,
            Item::SolarCharger => 17,
            Item::CircuitBoard => 18,
            Item::Umbrella => 19,
            Item::Fabric => 20,
            Item::ElectricMotor => 21,
            Item::SteelBolt => 22,
            Item::RustyMetal => 23,
            Item::MetalKnife => 24,
            Item::ElectronicToy => 25,
            Item::Meat => 26,
            Item::Bone => 27,
            Item::Hide => 28,
            Item::Fur => 29,
            Item::Satchel => 30,
            Item::BoneNeedle => 31,
        }
    }

    /// The item at position `r` of the declaration order.
    pub fn from_rank(r: usize) -> (i: Item)
        requires
            r < ITEM_KINDS,
        ensures
            i == item_at(r as int),
    {
        match r {
            0 => Item::Stick,
            1 => Item::Branch,
            2 => Item::Stone,
            3 => Item::Vine,
            4 => Item::Cord,
            5 => Item::StoneAxe,
            6 => Item::Arrow,
            7 => Item::WoodenBow,
            8 => Item::PlasticBottle,
            9 => Item::CopperWire,
            10 => Item::Coil,
            11 => Item::Pole,
            12 => Item::Microcontroller,
            13 => Item::Speaker,
            14 => Item::MetalDetector,
            15 => Item::Battery,
            16 => Item::SolarPanel,
            17 => Item::SolarCharger,
            18 => Item::CircuitBoard,
            19 => Item::Umbrella,
            20 => Item::Fabric,
            21 => Item::ElectricMotor,
            22 => Item::SteelBolt,
            23 => Item::RustyMetal,
            24 => Item::MetalKnife,
            25 => Item::ElectronicToy,
            26 => Item::Meat,
            27 => Item::Bone,
            28 => Item::Hide,
            29 => Item::Fur,
            30 => Item::Satchel,
            _ => Item::BoneNeedle,
        }
    }

    /// The English display name, e.g. `"Stone Axe"`.
    pub fn name(self) -> (r: &'static str)
        ensures
            r@ == item_name(self),
    {
        match self {
            Item::Stick => "Stick",
            Item::Branch => "Branch",
            Item::Stone => "Stone",
            Item::Vine => "Vine",
            Item::Cord => "Cord",
            Item::StoneAxe => "Stone Axe",
            Item::Arrow => "Arrow",
            Item::WoodenBow => "Wooden Bow",
            Item::PlasticBottle => "Plastic Bottle",
            Item::CopperWire => "Copper Wire",
            Item::Coil => "Coil",
            Item::Pole => "Pole",
            Item::Microcontroller => "Microcontroller",
            Item::Speaker => "Speaker",
            Item::MetalDetector => "Metal Detector",
            Item::Battery => "Battery",
            Item::SolarPanel => "Solar Panel",
            Item::SolarCharger => "Solar Charger",
            Item::CircuitBoard => "Circuit Board",
            Item::Umbrella => "Umbrella",
            Item::Fabric => "Fabric",
            Item::ElectricMotor => "Electric Motor",
            Item::SteelBolt => "Steel Bolt",
            Item::RustyMetal => "Rusty Metal",
            Item::MetalKnife => "Metal Knife",
            Item::ElectronicToy => "Electronic Toy",
            Item::Meat => "Meat",
            Item::Bone => "Bone",
            Item::Hide => "Hide",
            Item::Fur => "Fur",
            Item::Satchel => "Satchel",
            Item::BoneNeedle => "Bone Needle",
        }
    }

    /// The display name as an owned string.
    pub fn to_string(&self) -> (r: String)
        ensures
            r@ == item_name(*self),
    {
        String::from_str(self.name())
    }
}

} // verus!

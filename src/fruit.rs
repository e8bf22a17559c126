//! The fixed, totally ordered set of game symbols.

use vstd::prelude::*;
use vstd::string::*;

verus! {

/// Number of symbols in the game.
pub const FRUIT_COUNT: usize = 12;

/// A game symbol. Declaration order is the symbols' fixed enumeration order.
#[allow(non_camel_case_types)]
#[derive(Debug, Clone, Copy, PartialEq, Eq, Structural, PartialOrd, Ord, Hash)]
pub enum Fruit {
    cherry,
    lemon,
    orange,
    plum,
    grapes,
    watermelon,
    banana,
    pear,
    apple,
    strawberry,
    bell,
    seven,
}

/// Position of a symbol in the enumeration order.
pub open spec fn fruit_index(f: Fruit) -> int {
    match f {
        Fruit::cherry => 0,
        Fruit::lemon => 1,
        Fruit::orange => 2,
        Fruit::plum => 3,
        Fruit::grapes => 4,
        Fruit::watermelon => 5,
        Fruit::banana => 6,
        Fruit::pear => 7,
        Fruit::apple => 8,
        Fruit::strawberry => 9,
        Fruit::bell => 10,
        Fruit::seven => 11,
    }
}

/// Every symbol, in enumeration order.
pub open spec fn all_fruits() -> Seq<Fruit> {
    seq![
        Fruit::cherry,
        Fruit::lemon,
        Fruit::orange,
        Fruit::plum,
        Fruit::grapes,
        Fruit::watermelon,
        Fruit::banana,
        Fruit::pear,
        Fruit::apple,
        Fruit::strawberry,
        Fruit::bell,
        Fruit::seven,
    ]
}

/// The symbol at position `i` of the enumeration order.
pub open spec fn fruit_at(i: int) -> Fruit
    recommends
        0 <= i < FRUIT_COUNT,
{
    all_fruits()[i]
}

/// `fruit_index` and `fruit_at` are inverse to each other.
pub proof fn lemma_fruit_index_bijective()
    ensures
        all_fruits().len() == FRUIT_COUNT,
        forall|f: Fruit| 0 <= #[trigger] fruit_index(f) < FRUIT_COUNT,
        forall|f: Fruit| #[trigger] fruit_at(fruit_index(f)) == f,
        forall|i: int| 0 <= i < FRUIT_COUNT ==> #[trigger] fruit_index(fruit_at(i)) == i,
{
    assert forall|f: Fruit| #[trigger] fruit_at(fruit_index(f)) == f by {
        match f {
            Fruit::cherry => {},
            Fruit::lemon => {},
            Fruit::orange => {},
            Fruit::plum => {},
            Fruit::grapes => {},
            Fruit::watermelon => {},
            Fruit::banana => {},
            Fruit::pear => {},
            Fruit::apple => {},
            Fruit::strawberry => {},
            Fruit::bell => {},
            Fruit::seven => {},
        }
    }
}

/// Name of a symbol, as used for its picture and in source text.
pub open spec fn fruit_name(f: Fruit) -> Seq<char> {
    match f {
        Fruit::cherry => "cherry"@,
        Fruit::lemon => "lemon"@,
        Fruit::orange => "orange"@,
        Fruit::plum => "plum"@,
        Fruit::grapes => "grapes"@,
        Fruit::watermelon => "watermelon"@,
        Fruit::banana => "banana"@,
        Fruit::pear => "pear"@,
        Fruit::apple => "apple"@,
        Fruit::strawberry => "strawberry"@,
        Fruit::bell => "bell"@,
        Fruit::seven => "seven"@,
    }
}

/// Names of all symbols, in enumeration order.
pub fn get_all_fruits() -> (r: Vec<String>)
    ensures
        r@.len() == FRUIT_COUNT,
        forall|i: int| 0 <= i < FRUIT_COUNT ==> (#[trigger] r@[i])@ == fruit_name(fruit_at(i)),
{
    let all = Fruit::all();
    let mut r: Vec<String> = Vec::new();
    let mut i: usize = 0;
    while i < all.len()
        invariant
            all@ == all_fruits(),
            i <= all@.len(),
            r@.len() == i,
            forall|k: int| 0 <= k < i ==> (#[trigger] r@[k])@ == fruit_name(fruit_at(k)),
        decreases all@.len() - i,
    {
        r.push(String::from_str(all[i].to_link_str()));
        i = i + 1;
    }
    r
}

impl Fruit {
    /// Name of the symbol.
    pub fn to_link_str(&self) -> (r: &'static str)
        ensures
            r@ == fruit_name(*self),
    {
        match self {
            Fruit::cherry => "cherry",
            Fruit::lemon => "lemon",
            Fruit::orange => "orange",
            Fruit::plum => "plum",
            Fruit::grapes => "grapes",
            Fruit::watermelon => "watermelon",
            Fruit::banana => "banana",
            Fruit::pear => "pear",
            Fruit::apple => "apple",
            Fruit::strawberry => "strawberry",
            Fruit::bell => "bell",
            Fruit::seven => "seven",
        }
    }

    /// Every symbol, in enumeration order.
    pub fn all() -> (r: Vec<Fruit>)
        ensures
            r@ == all_fruits(),
    {
        let r = vec![
            Fruit::cherry,
            Fruit::lemon,
            Fruit::orange,
            Fruit::plum,
            Fruit::grapes,
            Fruit::watermelon,
            Fruit::banana,
            Fruit::pear,
            Fruit::apple,
            Fruit::strawberry,
            Fruit::bell,
            Fruit::seven,
        ];
        assert(r@ =~= all_fruits());
        r
    }

    /// Position of the symbol in the enumeration order.
    pub fn index(&self) -> (r: u8)
        ensures
            r == fruit_index(*self),
    {
        match self {
            Fruit::cherry => 0,
            Fruit::lemon => 1,
            Fruit::orange => 2,
            Fruit::plum => 3,
            Fruit::grapes => 4,
            Fruit::watermelon => 5,
            Fruit::banana => 6,
            Fruit::pear => 7,
            Fruit::apple => 8,
            Fruit::strawberry => 9,
            Fruit::bell => 10,
            Fruit::seven => 11,
        }
    }

    /// The symbol at position `i`, if there is one.
    pub fn from_index(i: u8) -> (r: Option<Fruit>)
        ensures
            (i as int) < FRUIT_COUNT ==> r == Some(fruit_at(i as int)),
            (i as int) >= FRUIT_COUNT ==> r is None,
    {
        match i {
            0 => Some(Fruit::cherry),
            1 => Some(Fruit::lemon),
            2 => Some(Fruit::orange),
            3 => Some(Fruit::plum),
            4 => Some(Fruit::grapes),
            5 => Some(Fruit::watermelon),
            6 => Some(Fruit::banana),
            7 => Some(Fruit::pear),
            8 => Some(Fruit::apple),
            9 => Some(Fruit::strawberry),
            10 => Some(Fruit::bell),
            11 => Some(Fruit::seven),
            _ => None,
        }
    }
}

} // verus!

use vstd::prelude::*;

verus! {

/// Number of categories in the closed part-of-speech taxonomy.
pub const NUM_POS: usize = 15;

/// A simplified grammatical category.
#[derive(Clone, Copy, Debug, PartialEq, Eq, Hash, Structural)]
pub enum Pos {
    Det,
    Adj,
    N,
    V,
    Modal,
    Aux,
    Cop,
    To,
    Prep,
    Adv,
    Conj,
    Dot,
    Prefix,
    Pron,
    Intj,
}

/// A grammar symbol: a non-terminal reference, a terminal category, or an
/// optional wrapper that owns exactly one child.
#[derive(Debug)]
pub enum Sym {
    NT(String),
    T(Pos),
    Opt(Box<Sym>),
}

/// Position of a category in a weight vector.
pub open spec fn pos_index(p: Pos) -> nat {
    match p {
        Pos::Det => 0,
        Pos::Adj => 1,
        Pos::N => 2,
        Pos::V => 3,
        Pos::Modal => 4,
        Pos::Aux => 5,
        Pos::Cop => 6,
        Pos::To => 7,
        Pos::Prep => 8,
        Pos::Adv => 9,
        Pos::Conj => 10,
        Pos::Dot => 11,
        Pos::Prefix => 12,
        Pos::Pron => 13,
        Pos::Intj => 14,
    }
}

/// The category at a position of a weight vector.
pub open spec fn pos_at(i: int) -> Pos {
    if i == 0 { Pos::Det }
    else if i == 1 { Pos::Adj }
    else if i == 2 { Pos::N }
    else if i == 3 { Pos::V }
    else if i == 4 { Pos::Modal }
    else if i == 5 { Pos::Aux }
    else if i == 6 { Pos::Cop }
    else if i == 7 { Pos::To }
    else if i == 8 { Pos::Prep }
    else if i == 9 { Pos::Adv }
    else if i == 10 { Pos::Conj }
    else if i == 11 { Pos::Dot }
    else if i == 12 { Pos::Prefix }
    else if i == 13 { Pos::Pron }
    else { Pos::Intj }
}

/// The short code that stands for a category in a table file.
pub open spec fn pos_label(p: Pos) -> Seq<char> {
    match p {
        Pos::Det => "Det"@,
        Pos::Adj => "Adj"@,
        Pos::N => "N"@,
        Pos::V => "V"@,
        Pos::Modal => "Modal"@,
        Pos::Aux => "Aux"@,
        Pos::Cop => "Cop"@,
        Pos::To => "To"@,
        Pos::Prep => "Prep"@,
        Pos::Adv => "Adv"@,
        Pos::Conj => "Conj"@,
        Pos::Dot => "Dot"@,
        Pos::Prefix => "Prefix"@,
        Pos::Pron => "Pron"@,
        Pos::Intj => "Intj"@,
    }
}

/// Two strings hold the same characters.
pub fn same_text(a: &str, b: &str) -> (r: bool)
    ensures
        r == (a@ == b@),
{
    let x = String::from_str(a);
    let y = String::from_str(b);
    x == y
}

impl Pos {
    /// Position of this category in a weight vector.
    pub fn index(&self) -> (r: usize)
        ensures
            r as nat == pos_index(*self),
            r < NUM_POS,
    {
        match self {
            Pos::Det => 0,
            Pos::Adj => 1,
            Pos::N => 2,
            Pos::V => 3,
            Pos::Modal => 4,
            Pos::Aux => 5,
            Pos::Cop => 6,
            Pos::To => 7,
            Pos::Prep => 8,
            Pos::Adv => 9,
            Pos::Conj => 10,
            Pos::Dot => 11,
            Pos::Prefix => 12,
            Pos::Pron => 13,
            Pos::Intj => 14,
        }
    }

    /// The category at position `i` of a weight vector.
    pub fn at(i: usize) -> (r: Pos)
        requires
            i < NUM_POS,
        ensures
            r == pos_at(i as int),
            pos_index(r) == i,
    {
        if i == 0 { Pos::Det }
        else if i == 1 { Pos::Adj }
        else if i == 2 { Pos::N }
        else if i == 3 { Pos::V }
        else if i == 4 { Pos::Modal }
        else if i == 5 { Pos::Aux }
        else if i == 6 { Pos::Cop }
        else if i == 7 { Pos::To }
        else if i == 8 { Pos::Prep }
        else if i == 9 { Pos::Adv }
        else if i == 10 { Pos::Conj }
        else if i == 11 { Pos::Dot }
        else if i == 12 { Pos::Prefix }
        else if i == 13 { Pos::Pron }
        else { Pos::Intj }
    }

    /// The short code of this category.
    pub fn label(&self) -> (r: String)
        ensures
            r@ == pos_label(*self),
    {
        let s = match self {
            Pos::Det => "Det",
            Pos::Adj => "Adj",
            Pos::N => "N",
            Pos::V => "V",
            Pos::Modal => "Modal",
            Pos::Aux => "Aux",
            Pos::Cop => "Cop",
            Pos::To => "To",
            Pos::Prep => "Prep",
            Pos::Adv => "Adv",
            Pos::Conj => "Conj",
            Pos::Dot => "Dot",
            Pos::Prefix => "Prefix",
            Pos::Pron => "Pron",
            Pos::Intj => "Intj",
        };
        proof {
            reveal_strlit("Det"); reveal_strlit("Adj"); reveal_strlit("N");
            reveal_strlit("V"); reveal_strlit("Modal"); reveal_strlit("Aux");
            reveal_strlit("Cop"); reveal_strlit("To"); reveal_strlit("Prep");
            reveal_strlit("Adv"); reveal_strlit("Conj"); reveal_strlit("Dot");
            reveal_strlit("Prefix"); reveal_strlit("Pron"); reveal_strlit("Intj");
        }
        String::from_str(s)
    }

    /// The category whose short code is `s`, if any.
    pub fn from_label(s: &str) -> (r: Option<Pos>)
        ensures
            r matches Some(p) ==> pos_label(p) == s@,
            r is None ==> forall|i: int| 0 <= i < NUM_POS ==> pos_label(#[trigger] pos_at(i)) != s@,
    {
        let mut i: usize = 0;
        while i < NUM_POS
            invariant
                forall|j: int| 0 <= j < i ==> pos_label(#[trigger] pos_at(j)) != s@,
            decreases NUM_POS - i,
        {
            let p = Pos::at(i);
            let l = p.label();
            if same_text(l.as_str(), s) {
                return Some(p);
            }
            i = i + 1;
        }
        None
    }
}

} // verus!

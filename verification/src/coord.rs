//! Chunk identity: the `(x, y, group)` coordinate triple, its canonical
//! string key `"{x}_{y}_{group}"`, and one-step movement in the eight
//! compass directions.

use vstd::prelude::*;
use vstd::string::StringExecFns;
use crate::digits::{
    dec_digits, digit_val, int_chars, is_dec_digit, lemma_dec_digits_form,
    lemma_dec_digits_injective, push_dec, push_i32,
};

verus! {

/// One step of navigation between neighboring chunks.
#[derive(Clone, Copy, PartialEq, Eq, Structural, Debug)]
pub enum Direction {
    North,
    South,
    East,
    West,
    NorthEast,
    NorthWest,
    SouthEast,
    SouthWest,
}

/// The canonical key of the chunk at `(x, y, g)`.
pub open spec fn key_spec(x: int, y: int, g: int) -> Seq<char> {
    int_chars(x) + seq!['_'] + int_chars(y) + seq!['_'] + dec_digits(g as nat)
}

/// Derives the canonical string key `"{x}_{y}_{group}"` of a chunk.
pub fn key_of(x: i32, y: i32, group: u64) -> (r: String)
    ensures
        r@ == key_spec(x as int, y as int, group as int),
{
    proof {
        reveal_strlit("_");
    }
    let mut s = String::new();
    push_i32(&mut s, x);
    s.append("_");
    push_i32(&mut s, y);
    s.append("_");
    push_dec(&mut s, group);
    proof {
        assert("_"@ =~= seq!['_']);
        assert(s@ =~= key_spec(x as int, y as int, group as int));
    }
    s
}

/// The rendering of an integer never contains an underscore.
proof fn lemma_int_chars_no_underscore(n: int)
    ensures
        forall|i: int| 0 <= i < int_chars(n).len() ==> int_chars(n)[i] != '_',
{
    if n < 0 {
        lemma_dec_digits_form((-n) as nat);
        assert forall|i: int| 0 <= i < int_chars(n).len() implies int_chars(n)[i] != '_' by {
            if i == 0 {
                assert(int_chars(n)[0] == '-');
            } else {
                assert(int_chars(n)[i] == dec_digits((-n) as nat)[i - 1]);
                assert(is_dec_digit(dec_digits((-n) as nat)[i - 1]));
            }
        }
    } else {
        lemma_dec_digits_form(n as nat);
        assert forall|i: int| 0 <= i < int_chars(n).len() implies int_chars(n)[i] != '_' by {
            assert(is_dec_digit(dec_digits(n as nat)[i]));
        }
    }
}

/// Distinct integers render distinctly.
proof fn lemma_int_chars_injective(a: int, b: int)
    requires
        int_chars(a) == int_chars(b),
    ensures
        a == b,
{
    lemma_dec_digits_form(if a < 0 { -a } else { a } as nat);
    lemma_dec_digits_form(if b < 0 { -b } else { b } as nat);
    if a < 0 && b < 0 {
        let da = dec_digits((-a) as nat);
        let db = dec_digits((-b) as nat);
        assert((seq!['-'] + da).len() == 1 + da.len());
        assert((seq!['-'] + db).len() == 1 + db.len());
        assert(da.len() == db.len());
        assert forall|i: int| 0 <= i < da.len() implies da[i] == db[i] by {
            assert((seq!['-'] + da)[i + 1] == da[i]);
            assert((seq!['-'] + db)[i + 1] == db[i]);
        }
        assert(da =~= db);
        lemma_dec_digits_injective((-a) as nat, (-b) as nat);
    } else if a >= 0 && b >= 0 {
        lemma_dec_digits_injective(a as nat, b as nat);
    } else if a < 0 {
        assert(int_chars(a)[0] == '-');
        assert(is_dec_digit(int_chars(b)[0]));
        assert(false);
    } else {
        assert(int_chars(b)[0] == '-');
        assert(is_dec_digit(int_chars(a)[0]));
        assert(false);
    }
}

/// Two underscore-separated decompositions with underscore-free heads agree.
proof fn lemma_underscore_split(a1: Seq<char>, b1: Seq<char>, a2: Seq<char>, b2: Seq<char>)
    requires
        forall|i: int| 0 <= i < a1.len() ==> a1[i] != '_',
        forall|i: int| 0 <= i < a2.len() ==> a2[i] != '_',
        a1 + seq!['_'] + b1 == a2 + seq!['_'] + b2,
    ensures
        a1 == a2,
        b1 == b2,
{
    let s = a1 + seq!['_'] + b1;
    assert(s[a1.len() as int] == '_');
    assert(s[a2.len() as int] == '_');
    if a1.len() < a2.len() {
        assert(s[a1.len() as int] == a2[a1.len() as int]);
        assert(false);
    }
    if a2.len() < a1.len() {
        assert(s[a2.len() as int] == a1[a2.len() as int]);
        assert(false);
    }
    assert forall|i: int| 0 <= i < a1.len() implies a1[i] == a2[i] by {
        assert((a1 + seq!['_'] + b1)[i] == a1[i]);
        assert((a2 + seq!['_'] + b2)[i] == a2[i]);
    }
    assert(a1 =~= a2);
    assert((a1 + seq!['_'] + b1).len() == a1.len() + 1 + b1.len());
    assert((a2 + seq!['_'] + b2).len() == a2.len() + 1 + b2.len());
    assert(b1.len() == b2.len());
    assert forall|i: int| 0 <= i < b1.len() implies b1[i] == b2[i] by {
        assert((a1 + seq!['_'] + b1)[i + a1.len() + 1] == b1[i]);
        assert((a2 + seq!['_'] + b2)[i + a2.len() + 1] == b2[i]);
    }
    assert(b1 =~= b2);
}

/// Key derivation is injective over arbitrary integer triples.
pub proof fn lemma_key_spec_injective(x1: int, y1: int, g1: int, x2: int, y2: int, g2: int)
    requires
        g1 >= 0,
        g2 >= 0,
        key_spec(x1, y1, g1) == key_spec(x2, y2, g2),
    ensures
        x1 == x2,
        y1 == y2,
        g1 == g2,
{
    let t1 = int_chars(y1) + seq!['_'] + dec_digits(g1 as nat);
    let t2 = int_chars(y2) + seq!['_'] + dec_digits(g2 as nat);
    assert(key_spec(x1, y1, g1) =~= int_chars(x1) + seq!['_'] + t1);
    assert(key_spec(x2, y2, g2) =~= int_chars(x2) + seq!['_'] + t2);
    lemma_int_chars_no_underscore(x1);
    lemma_int_chars_no_underscore(x2);
    lemma_underscore_split(int_chars(x1), t1, int_chars(x2), t2);
    lemma_int_chars_injective(x1, x2);
    lemma_int_chars_no_underscore(y1);
    lemma_int_chars_no_underscore(y2);
    lemma_underscore_split(
        int_chars(y1),
        dec_digits(g1 as nat),
        int_chars(y2),
        dec_digits(g2 as nat),
    );
    lemma_int_chars_injective(y1, y2);
    lemma_dec_digits_injective(g1 as nat, g2 as nat);
}

/// Key derivation is injective: distinct `(x, y, group)` triples have
/// distinct canonical keys.  Together with the exact contract of [`key_of`]
/// (the result is a pure function of the triple, so repeated calls agree)
/// this pins down chunk identity: two coordinates name the same chunk
/// exactly when their keys are equal.
pub proof fn lemma_key_of_injective(x1: i32, y1: i32, g1: u64, x2: i32, y2: i32, g2: u64)
    requires
        key_spec(x1 as int, y1 as int, g1 as int) == key_spec(x2 as int, y2 as int, g2 as int),
    ensures
        x1 == x2,
        y1 == y2,
        g1 == g2,
{
    lemma_key_spec_injective(x1 as int, y1 as int, g1 as int, x2 as int, y2 as int, g2 as int);
}

/// Horizontal component of one step in `d`.
pub open spec fn dir_dx(d: Direction) -> int {
    match d {
        Direction::East | Direction::NorthEast | Direction::SouthEast => 1,
        Direction::West | Direction::NorthWest | Direction::SouthWest => -1,
        Direction::North | Direction::South => 0,
    }
}

/// Vertical component of one step in `d` (north is `+1`).
pub open spec fn dir_dy(d: Direction) -> int {
    match d {
        Direction::North | Direction::NorthEast | Direction::NorthWest => 1,
        Direction::South | Direction::SouthEast | Direction::SouthWest => -1,
        Direction::East | Direction::West => 0,
    }
}

/// The coordinate one step from `(x, y)` in direction `d`, or `None` when
/// the step would leave the `i32` coordinate range.
pub fn offset_coord(x: i32, y: i32, d: Direction) -> (r: Option<(i32, i32)>)
    ensures
        r is Some <==> (i32::MIN <= x + dir_dx(d) <= i32::MAX && i32::MIN <= y + dir_dy(d)
            <= i32::MAX),
        match r {
            Some(p) => p.0 == x + dir_dx(d) && p.1 == y + dir_dy(d),
            None => true,
        },
{
    let dx: i32 = match d {
        Direction::East | Direction::NorthEast | Direction::SouthEast => 1,
        Direction::West | Direction::NorthWest | Direction::SouthWest => -1,
        Direction::North | Direction::South => 0,
    };
    let dy: i32 = match d {
        Direction::North | Direction::NorthEast | Direction::NorthWest => 1,
        Direction::South | Direction::SouthEast | Direction::SouthWest => -1,
        Direction::East | Direction::West => 0,
    };
    if dx == 1 && x == i32::MAX {
        return None;
    }
    if dx == -1 && x == i32::MIN {
        return None;
    }
    if dy == 1 && y == i32::MAX {
        return None;
    }
    if dy == -1 && y == i32::MIN {
        return None;
    }
    Some((x + dx, y + dy))
}

/// Maps a numeric direction index to a [`Direction`], the way the editor's
/// navigation buttons are laid out; every unassigned index means north-west.
pub fn convert_to_dir(dir: usize) -> (r: Direction)
    ensures
        r == index_direction(dir as int),
{
    match dir {
        1 => Direction::North,
        2 => Direction::NorthEast,
        3 => Direction::West,
        4 => Direction::East,
        5 => Direction::SouthWest,
        6 => Direction::South,
        7 => Direction::SouthEast,
        _ => Direction::NorthWest,
    }
}

/// The direction assigned to each navigation index.
pub open spec fn index_direction(dir: int) -> Direction {
    if dir == 1 {
        Direction::North
    } else if dir == 2 {
        Direction::NorthEast
    } else if dir == 3 {
        Direction::West
    } else if dir == 4 {
        Direction::East
    } else if dir == 5 {
        Direction::SouthWest
    } else if dir == 6 {
        Direction::South
    } else if dir == 7 {
        Direction::SouthEast
    } else {
        Direction::NorthWest
    }
}

} // verus!

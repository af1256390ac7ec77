//! The textual chunk file format: a JSON object
//! `{"x":X,"y":Y,"group":G,"tile":[{"id":[...]},...]}` with eight layer
//! objects of 1024 tile ids each.  The writer emits the canonical form
//! (no whitespace, no leading zeros); the reader accepts exactly that
//! shape and is proved to invert the writer.

use vstd::prelude::*;
use vstd::string::StrSliceExecFns;
use crate::digits::{
    dec_digits, digit_val, int_chars, is_dec_digit, lemma_dec_digits_form, lemma_seq_val_dec_digits,
    lemma_seq_val_nonneg, lemma_seq_val_prefix_le, push_dec_chars, push_i32_chars, seq_val,
};
use crate::map_data::{MapData, Tile};

verus! {

/// `{"x":`
pub open spec fn x_label() -> Seq<char> {
    seq!['{', '"', 'x', '"', ':']
}

/// `,"y":`
pub open spec fn y_label() -> Seq<char> {
    seq![',', '"', 'y', '"', ':']
}

/// `,"group":`
pub open spec fn group_label() -> Seq<char> {
    seq![',', '"', 'g', 'r', 'o', 'u', 'p', '"', ':']
}

/// `,"tile":[`
pub open spec fn tile_label() -> Seq<char> {
    seq![',', '"', 't', 'i', 'l', 'e', '"', ':', '[']
}

/// `{"id":[`
pub open spec fn id_label() -> Seq<char> {
    seq!['{', '"', 'i', 'd', '"', ':', '[']
}

/// `]}`
pub open spec fn close_label() -> Seq<char> {
    seq![']', '}']
}

/// Comma-separated canonical decimals of a list of tile ids.
pub open spec fn ids_chars(ids: Seq<u32>) -> Seq<char>
    decreases ids.len(),
{
    if ids.len() == 0 {
        Seq::empty()
    } else if ids.len() == 1 {
        dec_digits(ids[0] as nat)
    } else {
        dec_digits(ids[0] as nat) + seq![','] + ids_chars(ids.drop_first())
    }
}

/// One layer object `{"id":[...]}`.
pub open spec fn layer_chars(ids: Seq<u32>) -> Seq<char> {
    id_label() + ids_chars(ids) + close_label()
}

/// Comma-separated layer objects.
pub open spec fn layers_chars(ls: Seq<Seq<u32>>) -> Seq<char>
    decreases ls.len(),
{
    if ls.len() == 0 {
        Seq::empty()
    } else if ls.len() == 1 {
        layer_chars(ls[0])
    } else {
        layer_chars(ls[0]) + seq![','] + layers_chars(ls.drop_first())
    }
}

/// The canonical file content of a chunk at `(x, y, g)` with tile ids `ids`.
pub open spec fn chunk_chars(x: int, y: int, g: int, ids: Seq<Seq<u32>>) -> Seq<char> {
    x_label() + int_chars(x) + y_label() + int_chars(y) + group_label() + dec_digits(g as nat)
        + tile_label() + layers_chars(ids) + close_label()
}

/// Appending one id to a list extends its rendering by a comma (when the
/// list was nonempty) and the id's decimal digits.
proof fn lemma_ids_chars_push(s: Seq<u32>, v: u32)
    ensures
        s.len() == 0 ==> ids_chars(s.push(v)) =~= dec_digits(v as nat),
        s.len() > 0 ==> ids_chars(s.push(v)) =~= ids_chars(s) + seq![','] + dec_digits(v as nat),
    decreases s.len(),
{
    if s.len() == 0 {
        assert(s.push(v).len() == 1);
        assert(s.push(v)[0] == v);
    } else {
        lemma_ids_chars_push(s.drop_first(), v);
        assert(s.push(v).drop_first() =~= s.drop_first().push(v));
        assert(s.push(v)[0] == s[0]);
        if s.len() == 1 {
            assert(ids_chars(s.push(v)) =~= dec_digits(s[0] as nat) + seq![','] + dec_digits(
                v as nat,
            ));
            assert(ids_chars(s) =~= dec_digits(s[0] as nat));
        } else {
            assert(ids_chars(s.push(v)) =~= dec_digits(s[0] as nat) + seq![','] + ids_chars(
                s.drop_first().push(v),
            ));
            assert(ids_chars(s.push(v)) =~= ids_chars(s) + seq![','] + dec_digits(v as nat));
        }
    }
}

/// The same, one level up, for the list of layer objects.
proof fn lemma_layers_chars_push(s: Seq<Seq<u32>>, v: Seq<u32>)
    ensures
        s.len() == 0 ==> layers_chars(s.push(v)) =~= layer_chars(v),
        s.len() > 0 ==> layers_chars(s.push(v)) =~= layers_chars(s) + seq![','] + layer_chars(v),
    decreases s.len(),
{
    if s.len() == 0 {
        assert(s.push(v).len() == 1);
        assert(s.push(v)[0] == v);
    } else {
        lemma_layers_chars_push(s.drop_first(), v);
        assert(s.push(v).drop_first() =~= s.drop_first().push(v));
        assert(s.push(v)[0] == s[0]);
        if s.len() == 1 {
            assert(layers_chars(s.push(v)) =~= layer_chars(s[0]) + seq![','] + layer_chars(v));
            assert(layers_chars(s) =~= layer_chars(s[0]));
        } else {
            assert(layers_chars(s.push(v)) =~= layer_chars(s[0]) + seq![','] + layers_chars(
                s.drop_first().push(v),
            ));
            assert(layers_chars(s.push(v)) =~= layers_chars(s) + seq![','] + layer_chars(v));
        }
    }
}


/// End of the run of decimal digits starting at `pos`.
pub open spec fn run_end(s: Seq<char>, pos: int) -> int
    decreases s.len() - pos when 0 <= pos <= s.len()
{
    if pos >= s.len() || !is_dec_digit(s[pos]) {
        pos
    } else {
        run_end(s, pos + 1)
    }
}

/// Reads the canonical decimal of an unsigned value at `pos`: a nonempty
/// digit run with no leading zero, denoting at most `max`.
pub open spec fn parse_uint(s: Seq<char>, pos: int, max: int) -> Option<(int, int)> {
    let e = run_end(s, pos);
    if e == pos {
        None
    } else if s[pos] == '0' && e > pos + 1 {
        None
    } else if seq_val(s.subrange(pos, e)) > max {
        None
    } else {
        Some((seq_val(s.subrange(pos, e)), e))
    }
}

/// Reads a canonical signed decimal at `pos`: an optional `-` sign (never
/// on zero) followed by the digits of the magnitude, within `[min, max]`.
pub open spec fn parse_int(s: Seq<char>, pos: int, min: int, max: int) -> Option<(int, int)> {
    if pos < s.len() && s[pos] == '-' {
        match parse_uint(s, pos + 1, -min) {
            Some((v, e)) => if v == 0 {
                None
            } else {
                Some((-v, e))
            },
            None => None,
        }
    } else {
        parse_uint(s, pos, max)
    }
}

/// Expects the exact characters of `lit` at `pos`.
pub open spec fn parse_lit(s: Seq<char>, pos: int, lit: Seq<char>) -> Option<int> {
    if pos + lit.len() <= s.len() && s.subrange(pos, pos + lit.len()) == lit {
        Some(pos + lit.len())
    } else {
        None
    }
}

/// Reads `count` comma-separated tile ids.
pub open spec fn parse_ids(s: Seq<char>, pos: int, count: nat) -> Option<(Seq<u32>, int)>
    decreases count,
{
    if count == 0 {
        None
    } else {
        match parse_uint(s, pos, 0xFFFF_FFFF) {
            None => None,
            Some((v, e)) => if count == 1 {
                Some((seq![v as u32], e))
            } else {
                match parse_lit(s, e, seq![',']) {
                    None => None,
                    Some(e2) => match parse_ids(s, e2, (count - 1) as nat) {
                        None => None,
                        Some((rest, e3)) => Some((seq![v as u32] + rest, e3)),
                    },
                }
            },
        }
    }
}

/// Reads one layer object `{"id":[...]}` of 1024 ids.
pub open spec fn parse_layer(s: Seq<char>, pos: int) -> Option<(Seq<u32>, int)> {
    match parse_lit(s, pos, id_label()) {
        None => None,
        Some(p1) => match parse_ids(s, p1, 1024) {
            None => None,
            Some((ids, p2)) => match parse_lit(s, p2, close_label()) {
                None => None,
                Some(p3) => Some((ids, p3)),
            },
        },
    }
}

/// Reads `count` comma-separated layer objects.
pub open spec fn parse_layers(s: Seq<char>, pos: int, count: nat) -> Option<(Seq<Seq<u32>>, int)>
    decreases count,
{
    if count == 0 {
        None
    } else {
        match parse_layer(s, pos) {
            None => None,
            Some((l0, e)) => if count == 1 {
                Some((seq![l0], e))
            } else {
                match parse_lit(s, e, seq![',']) {
                    None => None,
                    Some(e2) => match parse_layers(s, e2, (count - 1) as nat) {
                        None => None,
                        Some((rest, e3)) => Some((seq![l0] + rest, e3)),
                    },
                }
            },
        }
    }
}

/// Reads a whole canonical chunk file; `None` on any deviation from the
/// canonical shape.
pub open spec fn parse_chunk(s: Seq<char>) -> Option<(int, int, int, Seq<Seq<u32>>)> {
    match parse_lit(s, 0, x_label()) {
        None => None,
        Some(p1) => match parse_int(s, p1, -0x8000_0000, 0x7FFF_FFFF) {
            None => None,
            Some((x, p2)) => match parse_lit(s, p2, y_label()) {
                None => None,
                Some(p3) => match parse_int(s, p3, -0x8000_0000, 0x7FFF_FFFF) {
                    None => None,
                    Some((y, p4)) => match parse_lit(s, p4, group_label()) {
                        None => None,
                        Some(p5) => match parse_uint(s, p5, 0xFFFF_FFFF_FFFF_FFFF) {
                            None => None,
                            Some((g, p6)) => match parse_lit(s, p6, tile_label()) {
                                None => None,
                                Some(p7) => match parse_layers(s, p7, 8) {
                                    None => None,
                                    Some((ls, p8)) => match parse_lit(s, p8, close_label()) {
                                        None => None,
                                        Some(p9) => if p9 == s.len() {
                                            Some((x, y, g, ls))
                                        } else {
                                            None
                                        },
                                    },
                                },
                            },
                        },
                    },
                },
            },
        },
    }
}

/// A digit run ends exactly where the digits stop.
proof fn lemma_run_end_of(s: Seq<char>, pos: int, e: int)
    requires
        0 <= pos <= e <= s.len(),
        forall|j: int| pos <= j < e ==> is_dec_digit(#[trigger] s[j]),
        e == s.len() || !is_dec_digit(s[e]),
    ensures
        run_end(s, pos) == e,
    decreases e - pos,
{
    if pos < e {
        lemma_run_end_of(s, pos + 1, e);
    }
}

/// Scans to the end of the digit run starting at `pos`.
fn scan_digits(s: &Vec<char>, pos: usize) -> (e: usize)
    requires
        pos <= s@.len(),
    ensures
        pos <= e <= s@.len(),
        e == run_end(s@, pos as int),
        forall|j: int| pos <= j < e ==> is_dec_digit(#[trigger] s@[j]),
        e == s@.len() || !is_dec_digit(s@[e as int]),
{
    let mut i: usize = pos;
    while i < s.len() && s[i] as u32 >= 48 && s[i] as u32 <= 57
        invariant
            pos <= i <= s@.len(),
            forall|j: int| pos <= j < i ==> is_dec_digit(#[trigger] s@[j]),
        decreases s@.len() - i,
    {
        i = i + 1;
    }
    proof {
        lemma_run_end_of(s@, pos as int, i as int);
    }
    i
}

/// Reads an unsigned decimal at `pos`, mirroring [`parse_uint`].
fn parse_uint_exec(s: &Vec<char>, pos: usize, max: u64) -> (r: Option<(u64, usize)>)
    requires
        pos <= s@.len(),
        max >= 9,
    ensures
        match r {
            Some(p) => parse_uint(s@, pos as int, max as int) == Some((p.0 as int, p.1 as int))
                && pos < p.1 <= s@.len() && p.0 <= max,
            None => parse_uint(s@, pos as int, max as int) is None,
        },
{
    let e = scan_digits(s, pos);
    if e == pos {
        return None;
    }
    if s[pos] == '0' && e > pos + 1 {
        return None;
    }
    let ghost ds = s@.subrange(pos as int, e as int);
    proof {
        assert(forall|j: int| 0 <= j < ds.len() ==> is_dec_digit(#[trigger] ds[j]));
    }
    let mut acc: u64 = 0;
    let mut i: usize = pos;
    while i < e
        invariant
            pos <= i <= e <= s@.len(),
            max >= 9,
            e == run_end(s@, pos as int),
            ds == s@.subrange(pos as int, e as int),
            forall|j: int| 0 <= j < ds.len() ==> is_dec_digit(#[trigger] ds[j]),
            forall|j: int| pos <= j < e ==> is_dec_digit(#[trigger] s@[j]),
            s@[pos as int] == '0' && e > pos + 1 ==> false,
            acc <= max,
            acc == seq_val(s@.subrange(pos as int, i as int)),
        decreases e - i,
    {
        let c = s[i];
        proof {
            assert(is_dec_digit(s@[i as int]));
        }
        let d: u64 = (c as u32 as u64) - 48;
        let ghost pre = s@.subrange(pos as int, i as int);
        let ghost cur = s@.subrange(pos as int, i as int + 1);
        proof {
            assert(cur.drop_last() =~= pre);
            assert(cur.last() == s@[i as int]);
            assert(digit_val(s@[i as int]) == d);
            assert(seq_val(cur) == acc * 10 + d);
        }
        if acc > (max - d) / 10 {
            proof {
                assert((max - d) / 10 * 10 + (max - d) % 10 == max - d);
                assert(acc * 10 + d > max);
                assert(cur =~= ds.subrange(0, i + 1 - pos as int));
                lemma_seq_val_prefix_le(ds, i + 1 - pos as int);
                assert(seq_val(ds) > max);
            }
            return None;
        }
        proof {
            assert(acc <= (max - d) / 10);
            assert((max - d) / 10 * 10 + (max - d) % 10 == max - d);
            assert(acc * 10 + d <= max);
        }
        acc = acc * 10 + d;
        i = i + 1;
    }
    proof {
        assert(s@.subrange(pos as int, e as int) == ds);
        assert(seq_val(ds) == acc);
        lemma_seq_val_nonneg(ds);
    }
    Some((acc, e))
}

/// Reads a signed 32-bit decimal at `pos`, mirroring [`parse_int`].
fn parse_i32_exec(s: &Vec<char>, pos: usize) -> (r: Option<(i32, usize)>)
    requires
        pos <= s@.len(),
    ensures
        match r {
            Some(p) => parse_int(s@, pos as int, -0x8000_0000, 0x7FFF_FFFF) == Some((
                p.0 as int,
                p.1 as int,
            )) && pos < p.1 <= s@.len(),
            None => parse_int(s@, pos as int, -0x8000_0000, 0x7FFF_FFFF) is None,
        },
{
    if pos < s.len() && s[pos] == '-' {
        match parse_uint_exec(s, pos + 1, 0x8000_0000) {
            Some((v, e)) => {
                if v == 0 {
                    None
                } else {
                    Some((-((v as i64)) as i32, e))
                }
            },
            None => None,
        }
    } else {
        match parse_uint_exec(s, pos, 0x7FFF_FFFF) {
            Some((v, e)) => Some((v as i32, e)),
            None => None,
        }
    }
}

/// Expects the characters of `lit` at `pos`, mirroring [`parse_lit`].
fn parse_lit_exec(s: &Vec<char>, pos: usize, lit: &str) -> (r: Option<usize>)
    requires
        pos <= s@.len(),
    ensures
        match r {
            Some(e) => parse_lit(s@, pos as int, lit@) == Some(e as int) && pos <= e <= s@.len(),
            None => parse_lit(s@, pos as int, lit@) is None,
        },
{
    let n = lit.unicode_len();
    let slen = s.len();
    if n > slen - pos {
        return None;
    }
    let mut i: usize = 0;
    while i < n
        invariant
            0 <= i <= n,
            n == lit@.len(),
            pos + n <= slen,
            slen == s@.len(),
            forall|j: int| 0 <= j < i ==> s@[pos + j] == lit@[j],
        decreases n - i,
    {
        let c = lit.get_char(i);
        if s[pos + i] != c {
            proof {
                assert(s@.subrange(pos as int, pos + n as int) != lit@) by {
                    if s@.subrange(pos as int, pos + n as int) == lit@ {
                        assert(s@.subrange(pos as int, pos + n as int)[i as int] == s@[pos + i]);
                    }
                }
            }
            return None;
        }
        i = i + 1;
    }
    proof {
        assert(s@.subrange(pos as int, pos + n as int) =~= lit@);
    }
    Some(pos + n)
}

/// Reads 1024 comma-separated ids, mirroring [`parse_ids`].
fn parse_ids_exec(s: &Vec<char>, pos: usize) -> (r: Option<(Vec<u32>, usize)>)
    requires
        pos <= s@.len(),
    ensures
        match r {
            Some(p) => parse_ids(s@, pos as int, 1024) == Some((p.0@, p.1 as int)) && p.1
                <= s@.len() && p.0@.len() == 1024,
            None => parse_ids(s@, pos as int, 1024) is None,
        },
{
    let mut ids: Vec<u32> = Vec::new();
    let mut cur: usize = pos;
    let mut k: usize = 0;
    while k < 1024
        invariant
            cur <= s@.len(),
            ids@.len() == k,
            0 <= k <= 1024,
            k < 1024 ==> (match parse_ids(s@, cur as int, (1024 - k) as nat) {
                None => parse_ids(s@, pos as int, 1024) is None,
                Some(p) => parse_ids(s@, pos as int, 1024) == Some((ids@ + p.0, p.1)),
            }),
            k == 1024 ==> parse_ids(s@, pos as int, 1024) == Some((ids@, cur as int)),
        decreases 1024 - k,
    {
        let ghost c = (1024 - k) as nat;
        let ghost cur0 = cur as int;
        let ghost pids = ids@;
        match parse_uint_exec(s, cur, 0xFFFF_FFFF) {
            None => {
                proof {
                    assert(parse_ids(s@, cur0, c) is None);
                }
                return None;
            },
            Some((v, e)) => {
                ids.push(v as u32);
                if k < 1023 {
                    proof {
                        reveal_strlit(",");
                    }
                    match parse_lit_exec(s, e, ",") {
                        None => {
                            proof {
                                assert(","@ =~= seq![',']);
                                assert(parse_ids(s@, cur0, c) is None);
                            }
                            return None;
                        },
                        Some(e2) => {
                            proof {
                                assert(","@ =~= seq![',']);
                                let rec = parse_ids(s@, e2 as int, (c - 1) as nat);
                                match rec {
                                    None => {
                                        assert(parse_ids(s@, cur0, c) is None);
                                    },
                                    Some(p) => {
                                        assert(parse_ids(s@, cur0, c) == Some((
                                            seq![v as u32] + p.0,
                                            p.1,
                                        )));
                                        assert(pids + (seq![v as u32] + p.0) =~= ids@ + p.0);
                                    },
                                }
                            }
                            cur = e2;
                        },
                    }
                } else {
                    proof {
                        assert(c == 1);
                        assert(parse_ids(s@, cur0, c) == Some((seq![v as u32], e as int)));
                        assert(pids + seq![v as u32] =~= ids@);
                    }
                    cur = e;
                }
                k = k + 1;
            },
        }
    }
    Some((ids, cur))
}

/// Reads one layer object, mirroring [`parse_layer`].
fn parse_layer_exec(s: &Vec<char>, pos: usize) -> (r: Option<(Tile, usize)>)
    requires
        pos <= s@.len(),
    ensures
        match r {
            Some(p) => parse_layer(s@, pos as int) == Some((p.0.id@, p.1 as int)) && p.1
                <= s@.len() && p.0.id@.len() == 1024,
            None => parse_layer(s@, pos as int) is None,
        },
{
    proof {
        reveal_strlit("{\"id\":[");
        reveal_strlit("]}");
        assert("{\"id\":["@ =~= id_label());
        assert("]}"@ =~= close_label());
    }
    let p1 = match parse_lit_exec(s, pos, "{\"id\":[") {
        None => {
            return None;
        },
        Some(p) => p,
    };
    let (id, p2) = match parse_ids_exec(s, p1) {
        None => {
            return None;
        },
        Some(p) => p,
    };
    let p3 = match parse_lit_exec(s, p2, "]}") {
        None => {
            return None;
        },
        Some(p) => p,
    };
    Some((Tile { id }, p3))
}

/// Reads 8 comma-separated layer objects, mirroring [`parse_layers`].
fn parse_layers_exec(s: &Vec<char>, pos: usize) -> (r: Option<(Vec<Tile>, usize)>)
    requires
        pos <= s@.len(),
    ensures
        match r {
            Some(p) => parse_layers(s@, pos as int, 8) == Some((
                p.0@.map_values(|t: Tile| t.id@),
                p.1 as int,
            )) && p.1 <= s@.len() && p.0@.len() == 8 && (forall|l: int|
                0 <= l < 8 ==> (#[trigger] p.0@[l]).id@.len() == 1024),
            None => parse_layers(s@, pos as int, 8) is None,
        },
{
    let mut tiles: Vec<Tile> = Vec::new();
    let mut cur: usize = pos;
    let mut k: usize = 0;
    while k < 8
        invariant
            cur <= s@.len(),
            tiles@.len() == k,
            0 <= k <= 8,
            forall|l: int| 0 <= l < k ==> (#[trigger] tiles@[l]).id@.len() == 1024,
            k < 8 ==> (match parse_layers(s@, cur as int, (8 - k) as nat) {
                None => parse_layers(s@, pos as int, 8) is None,
                Some(p) => parse_layers(s@, pos as int, 8) == Some((
                    tiles@.map_values(|t: Tile| t.id@) + p.0,
                    p.1,
                )),
            }),
            k == 8 ==> parse_layers(s@, pos as int, 8) == Some((
                tiles@.map_values(|t: Tile| t.id@),
                cur as int,
            )),
        decreases 8 - k,
    {
        let ghost c = (8 - k) as nat;
        let ghost cur0 = cur as int;
        let ghost pls = tiles@.map_values(|t: Tile| t.id@);
        match parse_layer_exec(s, cur) {
            None => {
                proof {
                    assert(parse_layers(s@, cur0, c) is None);
                }
                return None;
            },
            Some((t, e)) => {
                let ghost tids = t.id@;
                tiles.push(t);
                proof {
                    assert(tiles@.map_values(|t: Tile| t.id@) =~= pls.push(tids));
                }
                if k < 7 {
                    proof {
                        reveal_strlit(",");
                    }
                    match parse_lit_exec(s, e, ",") {
                        None => {
                            proof {
                                assert(","@ =~= seq![',']);
                                assert(parse_layers(s@, cur0, c) is None);
                            }
                            return None;
                        },
                        Some(e2) => {
                            proof {
                                assert(","@ =~= seq![',']);
                                let rec = parse_layers(s@, e2 as int, (c - 1) as nat);
                                match rec {
                                    None => {
                                        assert(parse_layers(s@, cur0, c) is None);
                                    },
                                    Some(p) => {
                                        assert(parse_layers(s@, cur0, c) == Some((
                                            seq![tids] + p.0,
                                            p.1,
                                        )));
                                        assert(pls + (seq![tids] + p.0) =~= pls.push(tids) + p.0);
                                    },
                                }
                            }
                            cur = e2;
                        },
                    }
                } else {
                    proof {
                        assert(c == 1);
                        assert(parse_layers(s@, cur0, c) == Some((seq![tids], e as int)));
                        assert(pls + seq![tids] =~= pls.push(tids));
                    }
                    cur = e;
                }
                k = k + 1;
            },
        }
    }
    Some((tiles, cur))
}

/// Deserializes a canonical chunk file; `None` on any malformed content.
pub fn decode_chunk(s: &Vec<char>) -> (r: Option<MapData>)
    ensures
        match r {
            Some(m) => m.wf() && parse_chunk(s@) == Some((
                m.x as int,
                m.y as int,
                m.group as int,
                m.ids(),
            )),
            None => parse_chunk(s@) is None,
        },
{
    proof {
        reveal_strlit("{\"x\":");
        reveal_strlit(",\"y\":");
        reveal_strlit(",\"group\":");
        reveal_strlit(",\"tile\":[");
        reveal_strlit("]}");
        assert("{\"x\":"@ =~= x_label());
        assert(",\"y\":"@ =~= y_label());
        assert(",\"group\":"@ =~= group_label());
        assert(",\"tile\":["@ =~= tile_label());
        assert("]}"@ =~= close_label());
    }
    let p1 = match parse_lit_exec(s, 0, "{\"x\":") {
        None => {
            return None;
        },
        Some(p) => p,
    };
    let (x, p2) = match parse_i32_exec(s, p1) {
        None => {
            return None;
        },
        Some(p) => p,
    };
    let p3 = match parse_lit_exec(s, p2, ",\"y\":") {
        None => {
            return None;
        },
        Some(p) => p,
    };
    let (y, p4) = match parse_i32_exec(s, p3) {
        None => {
            return None;
        },
        Some(p) => p,
    };
    let p5 = match parse_lit_exec(s, p4, ",\"group\":") {
        None => {
            return None;
        },
        Some(p) => p,
    };
    let (g, p6) = match parse_uint_exec(s, p5, 0xFFFF_FFFF_FFFF_FFFF) {
        None => {
            return None;
        },
        Some(p) => p,
    };
    let p7 = match parse_lit_exec(s, p6, ",\"tile\":[") {
        None => {
            return None;
        },
        Some(p) => p,
    };
    let (tile, p8) = match parse_layers_exec(s, p7) {
        None => {
            return None;
        },
        Some(p) => p,
    };
    let p9 = match parse_lit_exec(s, p8, "]}") {
        None => {
            return None;
        },
        Some(p) => p,
    };
    if p9 != s.len() {
        return None;
    }
    let m = MapData { x, y, group: g, tile };
    proof {
        assert(m.ids() == m.tile@.map_values(|t: Tile| t.id@));
    }
    Some(m)
}

/// Splits a known subrange of `s` that equals `a + b` into its two parts.
proof fn lemma_peel(s: Seq<char>, pos: int, a: Seq<char>, b: Seq<char>)
    requires
        0 <= pos,
        pos + a.len() + b.len() <= s.len(),
        s.subrange(pos, pos + a.len() + b.len()) == a + b,
    ensures
        s.subrange(pos, pos + a.len()) == a,
        s.subrange(pos + a.len(), pos + a.len() + b.len()) == b,
{
    let w = s.subrange(pos, pos + a.len() + b.len());
    assert forall|j: int| 0 <= j < a.len() implies s[pos + j] == a[j] by {
        assert(w[j] == s[pos + j]);
        assert((a + b)[j] == a[j]);
    }
    assert(s.subrange(pos, pos + a.len()) =~= a);
    assert forall|j: int| 0 <= j < b.len() implies s[pos + a.len() + j] == b[j] by {
        assert(w[a.len() + j] == s[pos + a.len() + j]);
        assert((a + b)[a.len() + j] == b[j]);
    }
    assert(s.subrange(pos + a.len(), pos + a.len() + b.len()) =~= b);
}

/// A canonical unsigned decimal at `pos` parses back to its value.
proof fn lemma_parse_uint_of(s: Seq<char>, pos: int, n: nat, max: int)
    requires
        0 <= pos,
        pos + dec_digits(n).len() <= s.len(),
        s.subrange(pos, pos + dec_digits(n).len()) == dec_digits(n),
        pos + dec_digits(n).len() == s.len() || !is_dec_digit(
            s[pos + dec_digits(n).len()],
        ),
        n <= max,
    ensures
        parse_uint(s, pos, max) == Some((n as int, pos + dec_digits(n).len())),
{
    let d = dec_digits(n);
    let e = pos + d.len();
    lemma_dec_digits_form(n);
    assert forall|j: int| pos <= j < e implies is_dec_digit(#[trigger] s[j]) by {
        assert(s.subrange(pos, e)[j - pos] == s[j]);
        assert(is_dec_digit(d[j - pos]));
    }
    lemma_run_end_of(s, pos, e);
    assert(s[pos] == d[0]) by {
        assert(s.subrange(pos, e)[0] == s[pos]);
    }
    if n == 0 {
        assert(d.len() == 1);
    } else {
        assert(d[0] != '0');
    }
    lemma_seq_val_dec_digits(n);
}

/// A canonical signed decimal at `pos` parses back to its value.
proof fn lemma_parse_int_of(s: Seq<char>, pos: int, v: int, min: int, max: int)
    requires
        0 <= pos,
        pos + int_chars(v).len() <= s.len(),
        s.subrange(pos, pos + int_chars(v).len()) == int_chars(v),
        pos + int_chars(v).len() == s.len() || !is_dec_digit(s[pos + int_chars(v).len()]),
        min <= v <= max,
    ensures
        parse_int(s, pos, min, max) == Some((v, pos + int_chars(v).len())),
{
    if v >= 0 {
        lemma_dec_digits_form(v as nat);
        assert(s[pos] == dec_digits(v as nat)[0]) by {
            assert(s.subrange(pos, pos + int_chars(v).len())[0] == s[pos]);
        }
        assert(is_dec_digit(s[pos]));
        assert(s[pos] != '-');
        lemma_parse_uint_of(s, pos, v as nat, max);
    } else {
        let d = dec_digits((-v) as nat);
        assert(int_chars(v) =~= seq!['-'] + d);
        assert(s[pos] == '-') by {
            assert(s.subrange(pos, pos + int_chars(v).len())[0] == s[pos]);
            assert((seq!['-'] + d)[0] == '-');
        }
        lemma_peel(s, pos, seq!['-'], d);
        assert((seq!['-'] + d).len() == 1 + d.len());
        lemma_parse_uint_of(s, pos + 1, (-v) as nat, -min);
        lemma_dec_digits_form((-v) as nat);
    }
}

/// A canonical id list at `pos` parses back to its ids.
proof fn lemma_parse_ids_of(s: Seq<char>, pos: int, ids: Seq<u32>)
    requires
        1 <= ids.len(),
        0 <= pos,
        pos + ids_chars(ids).len() <= s.len(),
        s.subrange(pos, pos + ids_chars(ids).len()) == ids_chars(ids),
        pos + ids_chars(ids).len() == s.len() || !is_dec_digit(
            s[pos + ids_chars(ids).len()],
        ),
    ensures
        parse_ids(s, pos, ids.len() as nat) == Some((ids, pos + ids_chars(ids).len())),
    decreases ids.len(),
{
    if ids.len() == 1 {
        lemma_parse_uint_of(s, pos, ids[0] as nat, 0xFFFF_FFFF);
        assert(seq![ids[0]] =~= ids);
    } else {
        let d0 = dec_digits(ids[0] as nat);
        let rest = ids.drop_first();
        let tail = seq![','] + ids_chars(rest);
        assert(ids_chars(ids) =~= d0 + tail);
        lemma_peel(s, pos, d0, tail);
        let o1 = pos + d0.len();
        assert(s[o1] == ',') by {
            assert(s.subrange(o1, o1 + tail.len())[0] == s[o1]);
            assert(tail[0] == ',');
        }
        assert(!is_dec_digit(','));
        lemma_parse_uint_of(s, pos, ids[0] as nat, 0xFFFF_FFFF);
        lemma_peel(s, o1, seq![','], ids_chars(rest));
        assert(parse_lit(s, o1, seq![',']) == Some(o1 + 1)) by {
            assert(seq![','].len() == 1);
        }
        lemma_parse_ids_of(s, o1 + 1, rest);
        assert(seq![ids[0]] + rest =~= ids);
        assert(parse_ids(s, pos, ids.len() as nat) == Some((ids, pos + ids_chars(ids).len())));
    }
}

/// A canonical layer object at `pos` parses back to its ids.
proof fn lemma_parse_layer_of(s: Seq<char>, pos: int, ids: Seq<u32>)
    requires
        ids.len() == 1024,
        0 <= pos,
        pos + layer_chars(ids).len() <= s.len(),
        s.subrange(pos, pos + layer_chars(ids).len()) == layer_chars(ids),
    ensures
        parse_layer(s, pos) == Some((ids, pos + layer_chars(ids).len())),
{
    let tail = ids_chars(ids) + close_label();
    assert(layer_chars(ids) =~= id_label() + tail);
    lemma_peel(s, pos, id_label(), tail);
    let o1 = pos + id_label().len();
    lemma_peel(s, o1, ids_chars(ids), close_label());
    let o2 = o1 + ids_chars(ids).len();
    assert(s[o2] == ']') by {
        assert(s.subrange(o2, o2 + close_label().len())[0] == s[o2]);
        assert(close_label()[0] == ']');
    }
    assert(!is_dec_digit(']'));
    lemma_parse_ids_of(s, o1, ids);
}

/// A canonical layer list at `pos` parses back to its layers.
proof fn lemma_parse_layers_of(s: Seq<char>, pos: int, ls: Seq<Seq<u32>>)
    requires
        1 <= ls.len(),
        forall|l: int| 0 <= l < ls.len() ==> (#[trigger] ls[l]).len() == 1024,
        0 <= pos,
        pos + layers_chars(ls).len() <= s.len(),
        s.subrange(pos, pos + layers_chars(ls).len()) == layers_chars(ls),
    ensures
        parse_layers(s, pos, ls.len() as nat) == Some((ls, pos + layers_chars(ls).len())),
    decreases ls.len(),
{
    if ls.len() == 1 {
        lemma_parse_layer_of(s, pos, ls[0]);
        assert(seq![ls[0]] =~= ls);
    } else {
        let l0 = layer_chars(ls[0]);
        let rest = ls.drop_first();
        let tail = seq![','] + layers_chars(rest);
        assert(layers_chars(ls) =~= l0 + tail);
        lemma_peel(s, pos, l0, tail);
        let o1 = pos + l0.len();
        lemma_parse_layer_of(s, pos, ls[0]);
        lemma_peel(s, o1, seq![','], layers_chars(rest));
        assert(parse_lit(s, o1, seq![',']) == Some(o1 + 1)) by {
            assert(seq![','].len() == 1);
        }
        lemma_parse_layers_of(s, o1 + 1, rest);
        assert(seq![ls[0]] + rest =~= ls);
        assert(parse_layers(s, pos, ls.len() as nat) == Some((
            ls,
            pos + layers_chars(ls).len(),
        )));
    }
}

/// Round trip of the chunk file format: the canonical content written for
/// a coordinate and tile grid parses back to exactly that coordinate and
/// grid.  With the contracts of [`encode_chunk`] and [`decode_chunk`] this
/// says that saving a chunk and loading it again loses nothing.
#[verifier::rlimit(80)]
pub proof fn lemma_chunk_roundtrip(x: i32, y: i32, g: u64, ids: Seq<Seq<u32>>)
    requires
        ids.len() == 8,
        forall|l: int| 0 <= l < 8 ==> (#[trigger] ids[l]).len() == 1024,
    ensures
        parse_chunk(chunk_chars(x as int, y as int, g as int, ids)) == Some((
            x as int,
            y as int,
            g as int,
            ids,
        )),
{
    let s = chunk_chars(x as int, y as int, g as int, ids);
    let a1 = x_label();
    let a2 = int_chars(x as int);
    let a3 = y_label();
    let a4 = int_chars(y as int);
    let a5 = group_label();
    let a6 = dec_digits(g as nat);
    let a7 = tile_label();
    let a8 = layers_chars(ids);
    let a9 = close_label();
    let o1 = a1.len() as int;
    let o2 = o1 + a2.len();
    let o3 = o2 + a3.len();
    let o4 = o3 + a4.len();
    let o5 = o4 + a5.len();
    let o6 = o5 + a6.len();
    let o7 = o6 + a7.len();
    let o8 = o7 + a8.len();
    let o9 = o8 + a9.len();
    assert(s.len() == o9);
    assert(s.subrange(0, o9) =~= s);
    assert(s =~= a1 + (a2 + (a3 + (a4 + (a5 + (a6 + (a7 + (a8 + a9))))))));
    lemma_peel(s, 0, a1, a2 + (a3 + (a4 + (a5 + (a6 + (a7 + (a8 + a9)))))));
    lemma_peel(s, o1, a2, a3 + (a4 + (a5 + (a6 + (a7 + (a8 + a9))))));
    lemma_peel(s, o2, a3, a4 + (a5 + (a6 + (a7 + (a8 + a9)))));
    lemma_peel(s, o3, a4, a5 + (a6 + (a7 + (a8 + a9))));
    lemma_peel(s, o4, a5, a6 + (a7 + (a8 + a9)));
    lemma_peel(s, o5, a6, a7 + (a8 + a9));
    lemma_peel(s, o6, a7, a8 + a9);
    lemma_peel(s, o7, a8, a9);
    assert(parse_lit(s, 0, a1) == Some(o1));
    assert(s[o2] == ',') by {
        assert(s.subrange(o2, o3)[0] == s[o2]);
    }
    assert(!is_dec_digit(','));
    lemma_parse_int_of(s, o1, x as int, -0x8000_0000, 0x7FFF_FFFF);
    assert(parse_lit(s, o2, a3) == Some(o3));
    assert(s[o4] == ',') by {
        assert(s.subrange(o4, o5)[0] == s[o4]);
    }
    lemma_parse_int_of(s, o3, y as int, -0x8000_0000, 0x7FFF_FFFF);
    assert(parse_lit(s, o4, a5) == Some(o5));
    assert(s[o6] == ',') by {
        assert(s.subrange(o6, o7)[0] == s[o6]);
    }
    lemma_parse_uint_of(s, o5, g as nat, 0xFFFF_FFFF_FFFF_FFFF);
    assert(parse_lit(s, o6, a7) == Some(o7));
    lemma_parse_layers_of(s, o7, ids);
    assert(parse_lit(s, o8, a9) == Some(o9));
}

/// Appends `{"id":[` to `v`.
fn push_id_label(v: &mut Vec<char>)
    ensures
        final(v)@ == old(v)@ + id_label(),
{
    v.push('{');
    v.push('"');
    v.push('i');
    v.push('d');
    v.push('"');
    v.push(':');
    v.push('[');
    proof {
        assert(v@ =~= old(v)@ + id_label());
    }
}

/// Appends `]}` to `v`.
fn push_close_label(v: &mut Vec<char>)
    ensures
        final(v)@ == old(v)@ + close_label(),
{
    v.push(']');
    v.push('}');
    proof {
        assert(v@ =~= old(v)@ + close_label());
    }
}

/// Appends the comma-separated decimals of one layer's ids to `v`.
fn push_ids(v: &mut Vec<char>, ids: &Vec<u32>)
    ensures
        final(v)@ == old(v)@ + ids_chars(ids@),
{
    let ghost pre = v@;
    let mut i: usize = 0;
    while i < ids.len()
        invariant
            0 <= i <= ids@.len(),
            v@ == pre + ids_chars(ids@.subrange(0, i as int)),
        decreases ids@.len() - i,
    {
        let ghost done = ids@.subrange(0, i as int);
        if i > 0 {
            v.push(',');
        }
        push_dec_chars(v, ids[i] as u64);
        proof {
            lemma_ids_chars_push(done, ids@[i as int]);
            assert(ids@.subrange(0, i as int + 1) =~= done.push(ids@[i as int]));
            assert(v@ =~= pre + ids_chars(ids@.subrange(0, i as int + 1)));
        }
        i = i + 1;
    }
    proof {
        assert(ids@.subrange(0, ids@.len() as int) =~= ids@);
    }
}

/// Serializes a chunk into its canonical file content.
pub fn encode_chunk(m: &MapData) -> (v: Vec<char>)
    requires
        m.wf(),
    ensures
        v@ == chunk_chars(m.x as int, m.y as int, m.group as int, m.ids()),
{
    let mut v: Vec<char> = Vec::new();
    v.push('{');
    v.push('"');
    v.push('x');
    v.push('"');
    v.push(':');
    proof {
        assert(v@ =~= x_label());
    }
    push_i32_chars(&mut v, m.x);
    v.push(',');
    v.push('"');
    v.push('y');
    v.push('"');
    v.push(':');
    proof {
        assert(v@ =~= x_label() + int_chars(m.x as int) + y_label());
    }
    push_i32_chars(&mut v, m.y);
    v.push(',');
    v.push('"');
    v.push('g');
    v.push('r');
    v.push('o');
    v.push('u');
    v.push('p');
    v.push('"');
    v.push(':');
    proof {
        assert(v@ =~= x_label() + int_chars(m.x as int) + y_label() + int_chars(m.y as int)
            + group_label());
    }
    push_dec_chars(&mut v, m.group);
    v.push(',');
    v.push('"');
    v.push('t');
    v.push('i');
    v.push('l');
    v.push('e');
    v.push('"');
    v.push(':');
    v.push('[');
    let ghost head = x_label() + int_chars(m.x as int) + y_label() + int_chars(m.y as int)
        + group_label() + dec_digits(m.group as nat) + tile_label();
    proof {
        assert(v@ =~= head);
    }
    let mut l: usize = 0;
    while l < m.tile.len()
        invariant
            m.wf(),
            0 <= l <= 8,
            v@ == head + layers_chars(m.ids().subrange(0, l as int)),
        decreases m.tile@.len() - l,
    {
        let ghost done = m.ids().subrange(0, l as int);
        if l > 0 {
            v.push(',');
        }
        push_id_label(&mut v);
        push_ids(&mut v, &m.tile[l].id);
        push_close_label(&mut v);
        proof {
            lemma_layers_chars_push(done, m.ids()[l as int]);
            assert(m.ids()[l as int] == m.tile@[l as int].id@);
            assert(m.ids().subrange(0, l as int + 1) =~= done.push(m.ids()[l as int]));
            assert(v@ =~= head + layers_chars(m.ids().subrange(0, l as int + 1)));
        }
        l = l + 1;
    }
    push_close_label(&mut v);
    proof {
        assert(m.ids().subrange(0, 8) =~= m.ids());
        assert(v@ =~= chunk_chars(m.x as int, m.y as int, m.group as int, m.ids()));
    }
    v
}

} // verus!

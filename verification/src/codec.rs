//! The persisted arrangement format.
//!
//! An arrangement is stored as one line of structured text with exactly two
//! fields, the name first:
//!
//! ```text
//! {"name":"default","configuration":[{"id":1,"x":-1714,"y":-1440},{"id":2,"x":0,"y":0}]}
//! ```
//!
//! Quote and backslash characters inside the name are escaped with a
//! backslash. The encoding is deterministic, and parsing inverts it exactly
//! ([`lemma_arrangement_round_trip`]).

use vstd::prelude::*;

use crate::digits::{
    append_dec, append_int, dec_int, dec_nat, lemma_parse_dec_bounds, lemma_parse_dec_of_enc,
    lemma_parse_i32_bounds, lemma_parse_i32_of_enc, parse_dec, parse_i32, push_char, scan_dec,
    scan_int,
};
use crate::model::{Arrangement, DisplayLocation};

verus! {

/// The opening piece, up to and including the quote that starts the name.
pub open spec fn lit_head() -> Seq<char> {
    seq!['{', '"', 'n', 'a', 'm', 'e', '"', ':', '"']
}

/// The piece between the name's closing quote and the first record.
pub open spec fn lit_mid() -> Seq<char> {
    seq![',', '"', 'c', 'o', 'n', 'f', 'i', 'g', 'u', 'r', 'a', 't', 'i', 'o', 'n', '"', ':', '[']
}

/// The piece that starts one record.
pub open spec fn lit_id() -> Seq<char> {
    seq!['{', '"', 'i', 'd', '"', ':']
}

/// The piece between a record's identifier and its x coordinate.
pub open spec fn lit_x() -> Seq<char> {
    seq![',', '"', 'x', '"', ':']
}

/// The piece between a record's x and y coordinates.
pub open spec fn lit_y() -> Seq<char> {
    seq![',', '"', 'y', '"', ':']
}

/// How one character of a name is written: quote and backslash get a
/// backslash before them, everything else stands as it is.
pub open spec fn esc_char(c: char) -> Seq<char> {
    if c == '"' || c == '\\' {
        seq!['\\', c]
    } else {
        seq![c]
    }
}

/// The escaped form of a name.
pub open spec fn esc(s: Seq<char>) -> Seq<char>
    decreases s.len(),
{
    if s.len() == 0 {
        Seq::empty()
    } else {
        esc_char(s[0]) + esc(s.drop_first())
    }
}

/// Reads an escaped name starting at `i`, up to and including the closing
/// quote; returns the unescaped name and the position just past the quote.
pub open spec fn parse_name(s: Seq<char>, i: int) -> Option<(Seq<char>, int)>
    decreases s.len() - i,
{
    if i < 0 || i >= s.len() {
        None
    } else if s[i] == '"' {
        Some((Seq::empty(), i + 1))
    } else if s[i] == '\\' {
        if i + 1 < s.len() && (s[i + 1] == '"' || s[i + 1] == '\\') {
            match parse_name(s, i + 2) {
                Some((t, j)) => Some((seq![s[i + 1]] + t, j)),
                None => None,
            }
        } else {
            None
        }
    } else {
        match parse_name(s, i + 1) {
            Some((t, j)) => Some((seq![s[i]] + t, j)),
            None => None,
        }
    }
}

/// Whether `lit` stands in `s` at position `i`.
pub open spec fn match_lit(s: Seq<char>, i: int, lit: Seq<char>) -> bool {
    0 <= i && i + lit.len() <= s.len() && s.subrange(i, i + lit.len() as int) == lit
}

/// The encoding of one record.
pub open spec fn enc_record(d: DisplayLocation) -> Seq<char> {
    lit_id() + dec_nat(d.id as nat) + lit_x() + dec_int(d.x as int) + lit_y() + dec_int(
        d.y as int,
    ) + seq!['}']
}

/// Reads one record starting at `i`, up to and including its closing brace.
pub open spec fn parse_record(s: Seq<char>, i: int) -> Option<(DisplayLocation, int)> {
    if match_lit(s, i, lit_id()) {
        match parse_dec(s, i + 6, 0xffff_ffff) {
            Some((idv, j1)) => if match_lit(s, j1, lit_x()) {
                match parse_i32(s, j1 + 5) {
                    Some((xv, j2)) => if match_lit(s, j2, lit_y()) {
                        match parse_i32(s, j2 + 5) {
                            Some((yv, j3)) => if j3 < s.len() && s[j3] == '}' {
                                Some(
                                    (
                                        DisplayLocation {
                                            id: idv as u32,
                                            x: xv as i32,
                                            y: yv as i32,
                                        },
                                        j3 + 1,
                                    ),
                                )
                            } else {
                                None
                            },
                            None => None,
                        }
                    } else {
                        None
                    },
                    None => None,
                }
            } else {
                None
            },
            None => None,
        }
    } else {
        None
    }
}

/// A successful record parse starts at a valid position and moves strictly
/// forward, staying inside the string.
pub proof fn lemma_parse_record_progress(s: Seq<char>, i: int)
    ensures
        parse_record(s, i) matches Some((d, j)) ==> 0 <= i < j <= s.len(),
{
    if match_lit(s, i, lit_id()) {
        lemma_parse_dec_bounds(s, i + 6, 0xffff_ffff);
        match parse_dec(s, i + 6, 0xffff_ffff) {
            Some((idv, j1)) => {
                if match_lit(s, j1, lit_x()) {
                    lemma_parse_i32_bounds(s, j1 + 5);
                    match parse_i32(s, j1 + 5) {
                        Some((xv, j2)) => {
                            if match_lit(s, j2, lit_y()) {
                                lemma_parse_i32_bounds(s, j2 + 5);
                            }
                        },
                        None => {},
                    }
                }
            },
            None => {},
        }
    }
}

/// The encoding of a list of records, separated by commas.
pub open spec fn enc_records(ps: Seq<DisplayLocation>) -> Seq<char>
    decreases ps.len(),
{
    if ps.len() == 0 {
        Seq::empty()
    } else if ps.len() == 1 {
        enc_record(ps[0])
    } else {
        enc_record(ps[0]) + seq![','] + enc_records(ps.drop_first())
    }
}

/// Reads a non-empty comma-separated list of records starting at `i`, up to
/// and including the closing bracket.
pub open spec fn parse_records(s: Seq<char>, i: int) -> Option<(Seq<DisplayLocation>, int)>
    decreases s.len() - i,
    via parse_records_decreases
{
    match parse_record(s, i) {
        Some((d, j)) => {
            if j < s.len() && s[j] == ',' {
                match parse_records(s, j + 1) {
                    Some((ds, k)) => Some((seq![d] + ds, k)),
                    None => None,
                }
            } else if j < s.len() && s[j] == ']' {
                Some((seq![d], j + 1))
            } else {
                None
            }
        },
        None => None,
    }
}

#[via_fn]
proof fn parse_records_decreases(s: Seq<char>, i: int) {
    lemma_parse_record_progress(s, i);
}

/// The full deterministic encoding of an arrangement.
pub open spec fn enc_arrangement(name: Seq<char>, ps: Seq<DisplayLocation>) -> Seq<char> {
    lit_head() + esc(name) + seq!['"'] + lit_mid() + enc_records(ps) + seq![']', '}']
}

/// Reads a whole stored blob: the arrangement's name and its records.
/// `None` means the text is not an encoded arrangement.
pub open spec fn parse_arrangement(s: Seq<char>) -> Option<(Seq<char>, Seq<DisplayLocation>)> {
    if match_lit(s, 0, lit_head()) {
        match parse_name(s, 9) {
            Some((name, i1)) => if match_lit(s, i1, lit_mid()) {
                let i2 = i1 + 18;
                if i2 + 2 == s.len() && s[i2] == ']' && s[i2 + 1] == '}' {
                    Some((name, Seq::empty()))
                } else {
                    match parse_records(s, i2) {
                        Some((ds, i3)) => if i3 + 1 == s.len() && s[i3] == '}' {
                            Some((name, ds))
                        } else {
                            None
                        },
                        None => None,
                    }
                }
            } else {
                None
            },
            None => None,
        }
    } else {
        None
    }
}

/// Inside a region of `s` known to equal `whole`, the piece of `whole` at
/// relative offset `off` stands in `s` at `i + off`.
proof fn lemma_subrange_eq(s: Seq<char>, i: int, off: int, part: Seq<char>, whole: Seq<char>)
    requires
        0 <= i,
        i + whole.len() <= s.len(),
        s.subrange(i, i + whole.len() as int) == whole,
        0 <= off,
        off + part.len() <= whole.len(),
        forall|k: int| 0 <= k < part.len() ==> whole[off + k] == part[k],
    ensures
        s.subrange(i + off, i + off + part.len() as int) == part,
{
    assert forall|k: int| 0 <= k < part.len() implies s.subrange(
        i + off,
        i + off + part.len() as int,
    )[k] == part[k] by {
        assert(s[i + off + k] == s.subrange(i, i + whole.len() as int)[off + k]);
    }
    assert(s.subrange(i + off, i + off + part.len() as int) =~= part);
}

/// Parsing right after `esc(name)` and its closing quote were written gives
/// back `name`.
pub proof fn lemma_parse_name_of_esc(s: Seq<char>, i: int, name: Seq<char>)
    requires
        0 <= i,
        i + esc(name).len() + 1 <= s.len(),
        s.subrange(i, i + esc(name).len() as int) == esc(name),
        s[i + esc(name).len()] == '"',
    ensures
        parse_name(s, i) == Some((name, i + esc(name).len() + 1)),
    decreases name.len(),
{
    if name.len() == 0 {
        assert(esc(name).len() == 0);
    } else {
        let c = name[0];
        let rest = name.drop_first();
        let d = esc_char(c).len();
        assert(esc(name) == esc_char(c) + esc(rest));
        assert forall|k: int| 0 <= k < esc(name).len() implies s[i + k] == esc(name)[k] by {
            assert(s[i + k] == s.subrange(i, i + esc(name).len() as int)[k]);
        }
        lemma_subrange_eq(s, i, d as int, esc(rest), esc(name));
        lemma_parse_name_of_esc(s, i + d, rest);
        if c == '"' || c == '\\' {
            assert(s[i] == '\\') by {
                assert(esc(name)[0] == '\\');
                assert(s[i] == s.subrange(i, i + esc(name).len() as int)[0]);
            }
            assert(s[i + 1] == c) by {
                assert(esc(name)[1] == c);
                assert(s[i + 1] == s.subrange(i, i + esc(name).len() as int)[1]);
            }
            assert(seq![s[i + 1]] + rest =~= name);
        } else {
            assert(s[i] == c) by {
                assert(esc(name)[0] == c);
                assert(s[i] == s.subrange(i, i + esc(name).len() as int)[0]);
            }
            assert(seq![s[i]] + rest =~= name);
        }
    }
}

/// Parsing right after `enc_record(d)` was written gives back `d`.
pub proof fn lemma_parse_record_of_enc(s: Seq<char>, i: int, d: DisplayLocation)
    requires
        0 <= i,
        i + enc_record(d).len() <= s.len(),
        s.subrange(i, i + enc_record(d).len() as int) == enc_record(d),
    ensures
        parse_record(s, i) == Some((d, i + enc_record(d).len() as int)),
{
    let w = enc_record(d);
    let a = dec_nat(d.id as nat);
    let b = dec_int(d.x as int);
    let c = dec_int(d.y as int);
    let o1 = 6int;
    let o2 = o1 + a.len();
    let o3 = o2 + 5;
    let o4 = o3 + b.len();
    let o5 = o4 + 5;
    let o6 = o5 + c.len();
    assert(w.len() == o6 + 1);
    assert forall|k: int| 0 <= k < w.len() implies s[i + k] == w[k] by {
        assert(s[i + k] == s.subrange(i, i + w.len() as int)[k]);
    }
    lemma_subrange_eq(s, i, 0, lit_id(), w);
    assert(match_lit(s, i, lit_id()));
    lemma_subrange_eq(s, i, o1, a, w);
    assert(s[i + o2] == ',') by {
        assert(w[o2] == ',');
        assert(s[i + o2] == s.subrange(i, i + w.len() as int)[o2]);
    }
    lemma_parse_dec_of_enc(s, i + o1, d.id as nat, 0xffff_ffff);
    lemma_subrange_eq(s, i, o2, lit_x(), w);
    assert(match_lit(s, i + o2, lit_x()));
    lemma_subrange_eq(s, i, o3, b, w);
    assert(s[i + o4] == ',') by {
        assert(w[o4] == ',');
        assert(s[i + o4] == s.subrange(i, i + w.len() as int)[o4]);
    }
    lemma_parse_i32_of_enc(s, i + o3, d.x as int);
    lemma_subrange_eq(s, i, o4, lit_y(), w);
    assert(match_lit(s, i + o4, lit_y()));
    lemma_subrange_eq(s, i, o5, c, w);
    assert(s[i + o6] == '}') by {
        assert(w[o6] == '}');
        assert(s[i + o6] == s.subrange(i, i + w.len() as int)[o6]);
    }
    lemma_parse_i32_of_enc(s, i + o5, d.y as int);
}

/// Parsing right after `enc_records(ps)` and the closing bracket were
/// written gives back `ps`.
pub proof fn lemma_parse_records_of_enc(s: Seq<char>, i: int, ps: Seq<DisplayLocation>)
    requires
        ps.len() >= 1,
        0 <= i,
        i + enc_records(ps).len() + 1 <= s.len(),
        s.subrange(i, i + enc_records(ps).len() as int) == enc_records(ps),
        s[i + enc_records(ps).len()] == ']',
    ensures
        parse_records(s, i) == Some((ps, i + enc_records(ps).len() + 1)),
    decreases ps.len(),
{
    let w = enc_records(ps);
    let r0 = enc_record(ps[0]);
    assert forall|k: int| 0 <= k < w.len() implies s[i + k] == w[k] by {
        assert(s[i + k] == s.subrange(i, i + w.len() as int)[k]);
    }
    if ps.len() == 1 {
        assert(w == r0);
        lemma_parse_record_of_enc(s, i, ps[0]);
        assert(s[i + r0.len()] == ']');
        assert(seq![ps[0]] =~= ps);
    } else {
        let rest = ps.drop_first();
        assert(w == r0 + seq![','] + enc_records(rest));
        lemma_subrange_eq(s, i, 0, r0, w);
        lemma_parse_record_of_enc(s, i, ps[0]);
        assert(s[i + r0.len()] == ',') by {
            assert(w[r0.len() as int] == ',');
            assert(s[i + r0.len()] == s.subrange(i, i + w.len() as int)[r0.len() as int]);
        }
        lemma_subrange_eq(s, i, r0.len() + 1 as int, enc_records(rest), w);
        lemma_parse_records_of_enc(s, i + r0.len() + 1, rest);
        assert(seq![ps[0]] + rest =~= ps);
    }
}

/// Round-trip: parsing an encoded arrangement gives back exactly the name
/// and the records that were encoded, for every name and every record list.
#[verifier::rlimit(100)]
pub proof fn lemma_arrangement_round_trip(name: Seq<char>, ps: Seq<DisplayLocation>)
    ensures
        parse_arrangement(enc_arrangement(name, ps)) == Some((name, ps)),
{
    let s = enc_arrangement(name, ps);
    let e = esc(name);
    let i1 = 9 + e.len() as int + 1;
    let i2 = i1 + 18;
    assert(s =~= lit_head() + e + seq!['"'] + lit_mid() + enc_records(ps) + seq![']', '}']);
    assert(s.len() == i2 + enc_records(ps).len() + 2);
    assert(s.subrange(0, s.len() as int) =~= s);
    lemma_subrange_eq(s, 0, 0, lit_head(), s);
    assert(match_lit(s, 0, lit_head()));
    lemma_subrange_eq(s, 0, 9, e, s);
    assert(s[9 + e.len() as int] == '"');
    lemma_parse_name_of_esc(s, 9, name);
    lemma_subrange_eq(s, 0, i1, lit_mid(), s);
    assert(match_lit(s, i1, lit_mid()));
    if ps.len() == 0 {
        assert(enc_records(ps).len() == 0);
        assert(s[i2] == ']');
        assert(s[i2 + 1] == '}');
    } else {
        assert(s[i2] != ']') by {
            assert(s[i2] == enc_records(ps)[0]);
            assert(enc_records(ps)[0] == enc_record(ps[0])[0]);
            assert(enc_record(ps[0])[0] == '{');
        }
        lemma_subrange_eq(s, 0, i2, enc_records(ps), s);
        assert(s[i2 + enc_records(ps).len()] == ']');
        lemma_parse_records_of_enc(s, i2, ps);
        let i3 = i2 + enc_records(ps).len() + 1;
        assert(s[i3] == '}');
        assert(i3 + 1 == s.len());
    }
}


/// Escaping one more character extends the escaped form at the end.
proof fn lemma_esc_snoc(s: Seq<char>, k: int)
    requires
        0 <= k < s.len(),
    ensures
        esc(s.take(k + 1)) == esc(s.take(k)) + esc_char(s[k]),
    decreases k,
{
    if k == 0 {
        assert(s.take(1) =~= seq![s[0]]);
        assert(s.take(1).drop_first() =~= Seq::<char>::empty());
        assert(s.take(0) =~= Seq::<char>::empty());
        assert(esc(s.take(1)) =~= esc(s.take(0)) + esc_char(s[0]));
    } else {
        let t = s.drop_first();
        lemma_esc_snoc(t, k - 1);
        assert(s.take(k + 1).drop_first() =~= t.take(k));
        assert(s.take(k).drop_first() =~= t.take(k - 1));
        assert(s.take(k + 1)[0] == s[0]);
        assert(s.take(k)[0] == s[0]);
        assert(t[k - 1] == s[k]);
        assert(esc(s.take(k + 1)) =~= esc(s.take(k)) + esc_char(s[k]));
    }
}

/// Encoding one more record extends the encoded list at the end.
proof fn lemma_enc_records_snoc(ps: Seq<DisplayLocation>, k: int)
    requires
        0 <= k < ps.len(),
    ensures
        enc_records(ps.take(k + 1)) == if k == 0 {
            enc_record(ps[0])
        } else {
            enc_records(ps.take(k)) + seq![','] + enc_record(ps[k])
        },
    decreases k,
{
    if k == 0 {
        assert(ps.take(1) =~= seq![ps[0]]);
    } else {
        let t = ps.drop_first();
        lemma_enc_records_snoc(t, k - 1);
        assert(ps.take(k + 1).drop_first() =~= t.take(k));
        assert(ps.take(k).drop_first() =~= t.take(k - 1));
        assert(ps.take(k + 1)[0] == ps[0]);
        assert(ps.take(k)[0] == ps[0]);
        assert(t[k - 1] == ps[k]);
        if k == 1 {
            assert(enc_records(ps.take(2)) =~= enc_records(ps.take(1)) + seq![','] + enc_record(
                ps[1],
            ));
        } else {
            assert(enc_records(ps.take(k + 1)) =~= enc_records(ps.take(k)) + seq![',']
                + enc_record(ps[k]));
        }
    }
}

/// Appends the escaped form of `name` to `out`.
fn append_escaped(out: &mut String, name: &str)
    ensures
        final(out)@ == old(out)@ + esc(name@),
{
    let ln = name.unicode_len();
    proof {
        assert(name@.take(0) =~= Seq::<char>::empty());
        assert(old(out)@ + esc(name@.take(0)) =~= old(out)@);
    }
    let mut k: usize = 0;
    while k < ln
        invariant
            k <= ln,
            ln == name@.len(),
            out@ == old(out)@ + esc(name@.take(k as int)),
        decreases ln - k,
    {
        let c = name.get_char(k);
        if c == '"' || c == '\\' {
            push_char(out, '\\');
            push_char(out, c);
        } else {
            push_char(out, c);
        }
        proof {
            lemma_esc_snoc(name@, k as int);
            assert(out@ =~= old(out)@ + esc(name@.take(k as int + 1)));
        }
        k = k + 1;
    }
    proof {
        assert(name@.take(ln as int) =~= name@);
    }
}

/// Appends the encoding of one record to `out`.
fn append_record(out: &mut String, d: DisplayLocation)
    ensures
        final(out)@ == old(out)@ + enc_record(d),
{
    out.append("{\"id\":");
    proof {
        reveal_strlit("{\"id\":");
        assert(out@ =~= old(out)@ + lit_id());
    }
    append_dec(out, d.id as u64);
    out.append(",\"x\":");
    proof {
        reveal_strlit(",\"x\":");
    }
    append_int(out, d.x);
    out.append(",\"y\":");
    proof {
        reveal_strlit(",\"y\":");
    }
    append_int(out, d.y);
    out.append("}");
    proof {
        reveal_strlit("}");
        assert(out@ =~= old(out)@ + enc_record(d));
    }
}

/// Writes the deterministic textual form of an arrangement.
pub fn encode_arrangement(a: &Arrangement) -> (r: String)
    ensures
        r@ == enc_arrangement(a.name@, a.positions@),
{
    let mut out = String::new();
    out.append("{\"name\":\"");
    proof {
        reveal_strlit("{\"name\":\"");
        assert(out@ =~= lit_head());
    }
    append_escaped(&mut out, a.name.as_str());
    out.append("\",\"configuration\":[");
    let ghost pre = lit_head() + esc(a.name@) + seq!['"'] + lit_mid();
    proof {
        reveal_strlit("\",\"configuration\":[");
        assert(out@ =~= pre);
        assert(a.positions@.take(0) =~= Seq::<DisplayLocation>::empty());
        assert(pre + enc_records(a.positions@.take(0)) =~= pre);
    }
    let mut k: usize = 0;
    while k < a.positions.len()
        invariant
            k <= a.positions.len(),
            out@ == pre + enc_records(a.positions@.take(k as int)),
            pre == lit_head() + esc(a.name@) + seq!['"'] + lit_mid(),
        decreases a.positions.len() - k,
    {
        if k > 0 {
            out.append(",");
            proof {
                reveal_strlit(",");
            }
        }
        append_record(&mut out, a.positions[k]);
        proof {
            lemma_enc_records_snoc(a.positions@, k as int);
            assert(out@ =~= pre + enc_records(a.positions@.take(k as int + 1)));
        }
        k = k + 1;
    }
    out.append("]}");
    proof {
        reveal_strlit("]}");
        assert(a.positions@.take(a.positions@.len() as int) =~= a.positions@);
        assert(out@ =~= enc_arrangement(a.name@, a.positions@));
    }
    out
}

/// Checks that `lit` stands in `s` at `i`; on success returns the position
/// just past it.
fn expect_lit(s: &str, n: usize, i: usize, lit: &str, m: usize) -> (r: Option<usize>)
    requires
        n == s@.len(),
        m == lit@.len(),
        i <= n,
    ensures
        match r {
            Some(j) => match_lit(s@, i as int, lit@) && j == i + m && j <= n,
            None => !match_lit(s@, i as int, lit@),
        },
{
    if m > n - i {
        return None;
    }
    let mut k: usize = 0;
    while k < m
        invariant
            k <= m,
            i + m <= n,
            n == s@.len(),
            m == lit@.len(),
            forall|q: int| 0 <= q < k ==> s@[i + q] == lit@[q],
        decreases m - k,
    {
        if s.get_char(i + k) != lit.get_char(k) {
            proof {
                assert(s@.subrange(i as int, (i + m) as int)[k as int] == s@[i + k]);
            }
            return None;
        }
        k = k + 1;
    }
    proof {
        assert(s@.subrange(i as int, (i + m) as int) =~= lit@);
    }
    Some(i + m)
}

/// Reads an escaped name and its closing quote, building the name.
fn decode_name(s: &str, n: usize, i0: usize) -> (r: Option<(String, usize)>)
    requires
        n == s@.len(),
        i0 <= n,
    ensures
        match r {
            Some(p) => parse_name(s@, i0 as int) == Some((p.0@, p.1 as int)) && i0 < p.1 <= n,
            None => parse_name(s@, i0 as int) is None,
        },
{
    let mut acc = String::new();
    let mut i = i0;
    loop
        invariant
            i0 <= i <= n,
            n == s@.len(),
            parse_name(s@, i0 as int) == (match parse_name(s@, i as int) {
                Some((t, j)) => Some((acc@ + t, j)),
                None => None::<(Seq<char>, int)>,
            }),
        decreases n - i,
    {
        if i >= n {
            return None;
        }
        let c = s.get_char(i);
        if c == '"' {
            proof {
                assert(acc@ + Seq::<char>::empty() =~= acc@);
            }
            return Some((acc, i + 1));
        } else if c == '\\' {
            if i + 1 >= n {
                return None;
            }
            let c2 = s.get_char(i + 1);
            if c2 == '"' || c2 == '\\' {
                let ghost acc0 = acc@;
                push_char(&mut acc, c2);
                proof {
                    match parse_name(s@, (i + 2) as int) {
                        Some((t, j)) => {
                            assert(acc0 + (seq![c2] + t) =~= acc@ + t);
                        },
                        None => {},
                    }
                }
                i = i + 2;
            } else {
                return None;
            }
        } else {
            let ghost acc0 = acc@;
            push_char(&mut acc, c);
            proof {
                match parse_name(s@, (i + 1) as int) {
                    Some((t, j)) => {
                        assert(acc0 + (seq![c] + t) =~= acc@ + t);
                    },
                    None => {},
                }
            }
            i = i + 1;
        }
    }
}

/// Reads one record.
fn decode_record(s: &str, n: usize, i: usize) -> (r: Option<(DisplayLocation, usize)>)
    requires
        n == s@.len(),
        i <= n,
    ensures
        match r {
            Some(p) => parse_record(s@, i as int) == Some((p.0, p.1 as int)) && i < p.1 <= n,
            None => parse_record(s@, i as int) is None,
        },
{
    proof {
        reveal_strlit("{\"id\":");
        assert("{\"id\":"@ =~= lit_id());
    }
    let j0 = match expect_lit(s, n, i, "{\"id\":", 6) {
        Some(j) => j,
        None => {
            return None;
        },
    };
    let (idv, j1) = match scan_dec(s, n, j0, 0xffff_ffff) {
        Some(p) => p,
        None => {
            return None;
        },
    };
    proof {
        reveal_strlit(",\"x\":");
        assert(",\"x\":"@ =~= lit_x());
    }
    let j1b = match expect_lit(s, n, j1, ",\"x\":", 5) {
        Some(j) => j,
        None => {
            return None;
        },
    };
    let (xv, j2) = match scan_int(s, n, j1b) {
        Some(p) => p,
        None => {
            return None;
        },
    };
    proof {
        reveal_strlit(",\"y\":");
        assert(",\"y\":"@ =~= lit_y());
    }
    let j2b = match expect_lit(s, n, j2, ",\"y\":", 5) {
        Some(j) => j,
        None => {
            return None;
        },
    };
    let (yv, j3) = match scan_int(s, n, j2b) {
        Some(p) => p,
        None => {
            return None;
        },
    };
    if j3 < n && s.get_char(j3) == '}' {
        Some((DisplayLocation { id: idv as u32, x: xv, y: yv }, j3 + 1))
    } else {
        None
    }
}

/// Reads a non-empty record list, up to and including the closing bracket.
fn decode_records(s: &str, n: usize, i0: usize) -> (r: Option<(Vec<DisplayLocation>, usize)>)
    requires
        n == s@.len(),
        i0 <= n,
    ensures
        match r {
            Some(p) => parse_records(s@, i0 as int) == Some((p.0@, p.1 as int)) && i0 < p.1 <= n,
            None => parse_records(s@, i0 as int) is None,
        },
{
    let mut acc: Vec<DisplayLocation> = Vec::new();
    let mut i = i0;
    proof {
        assert(acc@ =~= Seq::<DisplayLocation>::empty());
    }
    loop
        invariant
            i0 <= i <= n,
            n == s@.len(),
            parse_records(s@, i0 as int) == (match parse_records(s@, i as int) {
                Some((ds, k)) => Some((acc@ + ds, k)),
                None => None::<(Seq<DisplayLocation>, int)>,
            }),
        decreases n - i,
    {
        let (d, j) = match decode_record(s, n, i) {
            Some(p) => p,
            None => {
                return None;
            },
        };
        if j < n {
            let c = s.get_char(j);
            if c == ',' {
                let ghost acc0 = acc@;
                acc.push(d);
                proof {
                    match parse_records(s@, (j + 1) as int) {
                        Some((ds, k)) => {
                            assert(acc0 + (seq![d] + ds) =~= acc@ + ds);
                        },
                        None => {},
                    }
                }
                i = j + 1;
            } else if c == ']' {
                let ghost acc0 = acc@;
                acc.push(d);
                proof {
                    assert(acc0 + seq![d] =~= acc@);
                }
                return Some((acc, j + 1));
            } else {
                return None;
            }
        } else {
            return None;
        }
    }
}

/// Parses the textual form of an arrangement; `None` means the text is not
/// an encoded arrangement.
pub fn decode_arrangement(s: &str) -> (r: Option<Arrangement>)
    ensures
        match r {
            Some(a) => parse_arrangement(s@) == Some((a.name@, a.positions@)),
            None => parse_arrangement(s@) is None,
        },
{
    let n = s.unicode_len();
    proof {
        reveal_strlit("{\"name\":\"");
        assert("{\"name\":\""@ =~= lit_head());
    }
    let i0 = match expect_lit(s, n, 0, "{\"name\":\"", 9) {
        Some(j) => j,
        None => {
            return None;
        },
    };
    let (name, i1) = match decode_name(s, n, i0) {
        Some(p) => p,
        None => {
            return None;
        },
    };
    proof {
        reveal_strlit(",\"configuration\":[");
        assert(",\"configuration\":["@ =~= lit_mid());
    }
    let i2 = match expect_lit(s, n, i1, ",\"configuration\":[", 18) {
        Some(j) => j,
        None => {
            return None;
        },
    };
    if i2 < n && s.get_char(i2) == ']' {
        if i2 + 1 < n && s.get_char(i2 + 1) == '}' {
            if i2 + 2 == n {
                return Some(Arrangement { name, positions: Vec::new() });
            }
        }
        proof {
            assert(!match_lit(s@, i2 as int, lit_id())) by {
                if match_lit(s@, i2 as int, lit_id()) {
                    assert(s@.subrange(i2 as int, i2 + 6 as int)[0] == s@[i2 as int]);
                }
            }
            assert(parse_record(s@, i2 as int) is None);
            assert(parse_records(s@, i2 as int) is None);
        }
        return None;
    }
    let (ds, i3) = match decode_records(s, n, i2) {
        Some(p) => p,
        None => {
            return None;
        },
    };
    if i3 < n && s.get_char(i3) == '}' {
        if i3 + 1 == n {
            return Some(Arrangement { name, positions: ds });
        }
    }
    None
}

} // verus!

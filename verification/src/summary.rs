//! The summary printed after preparing: downloaded and deleted files, sorted.
use vstd::prelude::*;
use vstd::multiset::Multiset;
use crate::prepare::strings_view;
use crate::text::{push_char, to_chars};

verus! {

broadcast use vstd::seq_lib::group_to_multiset_ensures;

/// `a` comes before `b` in the lexicographic order of their characters' code points,
/// which is the order of their UTF-8 bytes and so the order of `String`'s `Ord`.
pub open spec fn seq_lt(a: Seq<char>, b: Seq<char>) -> bool
    decreases a.len(),
{
    if a.len() == 0 {
        b.len() > 0
    } else if b.len() == 0 {
        false
    } else if a[0] != b[0] {
        a[0] < b[0]
    } else {
        seq_lt(a.drop_first(), b.drop_first())
    }
}

/// No element comes before one that precedes it.
pub open spec fn is_sorted(s: Seq<Seq<char>>) -> bool {
    forall|i: int, j: int| 0 <= i < j < s.len() ==> !seq_lt(#[trigger] s[j], #[trigger] s[i])
}

pub proof fn lemma_lt_irreflexive(a: Seq<char>)
    ensures
        !seq_lt(a, a),
    decreases a.len(),
{
    if a.len() > 0 {
        lemma_lt_irreflexive(a.drop_first());
    }
}

pub proof fn lemma_lt_asymmetric(a: Seq<char>, b: Seq<char>)
    requires
        seq_lt(a, b),
    ensures
        !seq_lt(b, a),
    decreases a.len(),
{
    if a.len() > 0 && b.len() > 0 && a[0] == b[0] {
        lemma_lt_asymmetric(a.drop_first(), b.drop_first());
    }
}

pub proof fn lemma_lt_transitive(a: Seq<char>, b: Seq<char>, c: Seq<char>)
    requires
        seq_lt(a, b),
        seq_lt(b, c),
    ensures
        seq_lt(a, c),
    decreases a.len(),
{
    if a.len() > 0 && b.len() > 0 && c.len() > 0 && a[0] == b[0] && b[0] == c[0] {
        lemma_lt_transitive(a.drop_first(), b.drop_first(), c.drop_first());
    }
}

pub proof fn lemma_lt_total(a: Seq<char>, b: Seq<char>)
    requires
        !seq_lt(a, b),
        !seq_lt(b, a),
    ensures
        a == b,
    decreases a.len(),
{
    if a.len() > 0 && b.len() > 0 {
        lemma_lt_total(a.drop_first(), b.drop_first());
        assert(a == seq![a[0]] + a.drop_first());
        assert(b == seq![b[0]] + b.drop_first());
    } else {
        assert(a.len() == 0 && b.len() == 0);
        assert(a =~= b);
    }
}

/// Whether `a` sorts before `b`.
pub fn string_lt(a: &String, b: &String) -> (r: bool)
    ensures
        r == seq_lt(a@, b@),
{
    let x: Vec<char> = to_chars(a.as_str());
    let y: Vec<char> = to_chars(b.as_str());
    assert(x@.subrange(0, x@.len() as int) == x@);
    assert(y@.subrange(0, y@.len() as int) == y@);
    let mut i: usize = 0;
    while i < x.len() && i < y.len() && x[i] == y[i]
        invariant
            i <= x@.len(),
            i <= y@.len(),
            x@ == a@,
            y@ == b@,
            seq_lt(a@, b@) == seq_lt(x@.subrange(i as int, x@.len() as int), y@.subrange(
                i as int,
                y@.len() as int,
            )),
        decreases x.len() - i,
    {
        proof {
            let xs: Seq<char> = x@.subrange(i as int, x@.len() as int);
            let ys: Seq<char> = y@.subrange(i as int, y@.len() as int);
            assert(xs.drop_first() == x@.subrange(i + 1, x@.len() as int));
            assert(ys.drop_first() == y@.subrange(i + 1, y@.len() as int));
        }
        i = i + 1;
    }
    proof {
        let xs: Seq<char> = x@.subrange(i as int, x@.len() as int);
        let ys: Seq<char> = y@.subrange(i as int, y@.len() as int);
        if i < x.len() && i < y.len() {
            assert(xs[0] == x@[i as int] && ys[0] == y@[i as int]);
        }
    }
    if i == x.len() {
        i < y.len()
    } else if i == y.len() {
        false
    } else {
        x[i] < y[i]
    }
}

/// The strings of `v` in ascending order, as `Vec::sort` leaves them.
pub fn sorted_strings(v: Vec<String>) -> (r: Vec<String>)
    ensures
        is_sorted(strings_view(r@)),
        strings_view(r@).to_multiset() == strings_view(v@).to_multiset(),
{
    let mut r: Vec<String> = Vec::new();
    let mut rest: Vec<String> = v;
    let ghost all: Seq<Seq<char>> = strings_view(rest@);
    assert(strings_view(r@) =~= Seq::<Seq<char>>::empty());
    while rest.len() > 0
        invariant
            is_sorted(strings_view(r@)),
            strings_view(r@).to_multiset().add(strings_view(rest@).to_multiset())
                == all.to_multiset(),
        decreases rest.len(),
    {
        let ghost rest_before: Seq<Seq<char>> = strings_view(rest@);
        let x: String = rest.pop().unwrap();
        proof {
            assert(rest_before =~= strings_view(rest@).push(x@));
        }
        let ghost rv: Seq<Seq<char>> = strings_view(r@);
        let mut p: usize = 0;
        while p < r.len() && !string_lt(&x, &r[p])
            invariant
                p <= r@.len(),
                rv == strings_view(r@),
                forall|k: int| 0 <= k < p ==> !seq_lt(x@, #[trigger] rv[k]),
            decreases r.len() - p,
        {
            assert(rv[p as int] == r@[p as int]@);
            p = p + 1;
        }
        proof {
            if p < r.len() {
                assert(rv[p as int] == r@[p as int]@);
            }
        }
        r.insert(p, x);
        proof {
            let nv: Seq<Seq<char>> = strings_view(r@);
            assert(nv =~= rv.insert(p as int, x@));
            assert forall|i: int, j: int| 0 <= i < j < nv.len() implies !seq_lt(
                #[trigger] nv[j],
                #[trigger] nv[i],
            ) by {
                if j < p {
                    assert(nv[i] == rv[i] && nv[j] == rv[j]);
                } else if j == p {
                    assert(nv[i] == rv[i]);
                    assert(!seq_lt(x@, rv[i]));
                } else if i == p {
                    // x before rv[p], and rv[p] no later than rv[j - 1]
                    assert(nv[j] == rv[j - 1]);
                    let y: Seq<char> = rv[p as int];
                    assert(seq_lt(x@, y));
                    if j - 1 > p {
                        assert(!seq_lt(rv[j - 1], rv[p as int]));
                        if seq_lt(y, rv[j - 1]) {
                            lemma_lt_transitive(x@, y, rv[j - 1]);
                        } else {
                            lemma_lt_total(y, rv[j - 1]);
                        }
                    }
                    lemma_lt_asymmetric(x@, rv[j - 1]);
                } else if i < p {
                    assert(nv[i] == rv[i] && nv[j] == rv[j - 1]);
                } else {
                    assert(nv[i] == rv[i - 1] && nv[j] == rv[j - 1]);
                }
            }
            assert(rv.insert(p as int, x@).to_multiset() == rv.to_multiset().insert(x@)) by {
                vstd::seq_lib::to_multiset_insert(rv, p as int, x@);
            }
            assert(rest_before.to_multiset() == strings_view(rest@).to_multiset().insert(x@)) by {
                vstd::seq_lib::to_multiset_build(strings_view(rest@), x@);
            }
            assert(nv.to_multiset().add(strings_view(rest@).to_multiset()) =~= rv.to_multiset().add(
                rest_before.to_multiset(),
            ));
        }
    }
    proof {
        assert(strings_view(rest@) =~= Seq::<Seq<char>>::empty());
        assert(strings_view(rest@).to_multiset() =~= Multiset::empty());
        assert(strings_view(r@).to_multiset().add(Multiset::empty()) =~= strings_view(r@).to_multiset());
    }
    r
}

/// `a` sorts no later than `b`.
pub open spec fn seq_le(a: Seq<char>, b: Seq<char>) -> bool {
    !seq_lt(b, a)
}

/// Law: `seq_le` is a total order.
pub proof fn lemma_le_total_ordering()
    ensures
        vstd::relations::total_ordering(|a: Seq<char>, b: Seq<char>| seq_le(a, b)),
{
    let leq = |a: Seq<char>, b: Seq<char>| seq_le(a, b);
    assert forall|x: Seq<char>| #[trigger] leq(x, x) by {
        lemma_lt_irreflexive(x);
    }
    assert forall|x: Seq<char>, y: Seq<char>| #[trigger] leq(x, y) && #[trigger] leq(y, x) implies x
        == y by {
        lemma_lt_total(x, y);
    }
    assert forall|x: Seq<char>, y: Seq<char>, z: Seq<char>| #[trigger] leq(x, y) && #[trigger] leq(
        y,
        z,
    ) implies leq(x, z) by {
        if seq_lt(z, x) {
            if seq_lt(y, x) {
            } else if seq_lt(x, y) {
                lemma_lt_transitive(z, x, y);
            } else {
                lemma_lt_total(x, y);
            }
        }
    }
    assert forall|x: Seq<char>, y: Seq<char>| #[trigger] leq(x, y) || #[trigger] leq(y, x) by {
        if seq_lt(y, x) {
            lemma_lt_asymmetric(y, x);
        }
    }
}

/// Law: two sorted orderings of the same strings are the same sequence, so the
/// sorted lists that `summary_lines` shows are determined by its inputs.
pub proof fn lemma_sorted_unique(x: Seq<Seq<char>>, y: Seq<Seq<char>>)
    requires
        is_sorted(x),
        is_sorted(y),
        x.to_multiset() == y.to_multiset(),
    ensures
        x == y,
{
    let leq = |a: Seq<char>, b: Seq<char>| seq_le(a, b);
    lemma_le_total_ordering();
    assert(vstd::relations::sorted_by(x, leq));
    assert(vstd::relations::sorted_by(y, leq));
    vstd::seq_lib::lemma_sorted_unique(x, y, leq);
}

/// The decimal digit `d`, for `d < 10`.
pub open spec fn digit_char(d: nat) -> char {
    ((48 + d) as u32) as char
}

/// The decimal numeral of `n`, without leading zeros.
pub open spec fn spec_decimal(n: nat) -> Seq<char>
    decreases n,
{
    if n < 10 {
        seq![digit_char(n)]
    } else {
        spec_decimal(n / 10).push(digit_char(n % 10))
    }
}

/// The decimal numeral of `n`, as `usize`'s `Display` writes it.
pub fn decimal(n: usize) -> (r: String)
    ensures
        r@ == spec_decimal(n as nat),
    decreases n,
{
    if n < 10 {
        let mut r: String = String::new();
        push_char(&mut r, ((n as u8) + 48) as char);
        r
    } else {
        let mut r: String = decimal(n / 10);
        push_char(&mut r, (((n % 10) as u8) + 48) as char);
        r
    }
}

/// The colour a summary line is printed in.
#[derive(PartialEq, Eq, Structural, Debug, Clone, Copy)]
pub enum Tone {
    Blue,
    Green,
    Yellow,
    Plain,
}

/// One line of the summary.
pub struct SummaryLine {
    pub tone: Tone,
    pub text: String,
}

impl View for SummaryLine {
    type V = (Tone, Seq<char>);

    open spec fn view(&self) -> (Tone, Seq<char>) {
        (self.tone, self.text@)
    }
}

/// The lines listing `paths`: one `    - path` each, or `    (none)`.
pub open spec fn spec_list_lines(paths: Seq<Seq<char>>) -> Seq<(Tone, Seq<char>)> {
    if paths.len() == 0 {
        seq![(Tone::Plain, "    (none)"@)]
    } else {
        paths.map_values(|p: Seq<char>| (Tone::Plain, "    - "@ + p))
    }
}

/// The summary for the downloaded files `downloaded` and the deleted files
/// `removed`, each list as it is shown.
pub open spec fn spec_summary(downloaded: Seq<Seq<char>>, removed: Seq<Seq<char>>) -> Seq<
    (Tone, Seq<char>),
> {
    seq![
        (Tone::Blue, "Prepare summary"@),
        (Tone::Green, "  Downloaded ("@ + spec_decimal(downloaded.len()) + "):"@),
    ] + spec_list_lines(downloaded) + seq![
        (Tone::Yellow, "  Deleted ("@ + spec_decimal(removed.len()) + "):"@),
    ] + spec_list_lines(removed)
}

fn list_lines(lines: &mut Vec<SummaryLine>, paths: &Vec<String>)
    ensures
        final(lines)@.map_values(|l: SummaryLine| l@) == old(lines)@.map_values(
            |l: SummaryLine| l@,
        ) + spec_list_lines(strings_view(paths@)),
{
    let ghost start: Seq<(Tone, Seq<char>)> = lines@.map_values(|l: SummaryLine| l@);
    proof {
        reveal_strlit("    (none)");
        reveal_strlit("    - ");
    }
    if paths.len() == 0 {
        let line: SummaryLine = SummaryLine { tone: Tone::Plain, text: String::from_str("    (none)") };
        lines.push(line);
        assert(lines@.map_values(|l: SummaryLine| l@) =~= start + spec_list_lines(strings_view(paths@)));
        return;
    }
    let mut i: usize = 0;
    while i < paths.len()
        invariant
            i <= paths@.len(),
            paths@.len() > 0,
            lines@.map_values(|l: SummaryLine| l@) == start + spec_list_lines(
                strings_view(paths@),
            ).subrange(0, i as int),
        decreases paths.len() - i,
    {
        let mut text: String = String::from_str("    - ");
        text.append(paths[i].as_str());
        let ghost before: Seq<SummaryLine> = lines@;
        let line: SummaryLine = SummaryLine { tone: Tone::Plain, text };
        lines.push(line);
        proof {
            let all: Seq<(Tone, Seq<char>)> = spec_list_lines(strings_view(paths@));
            assert(all[i as int] == (Tone::Plain, "    - "@ + paths@[i as int]@));
            assert(all.subrange(0, i + 1) == all.subrange(0, i as int).push(all[i as int]));
            assert(lines@.map_values(|l: SummaryLine| l@) =~= before.map_values(|l: SummaryLine| l@).push(
                all[i as int],
            ));
        }
        i = i + 1;
    }
    assert(spec_list_lines(strings_view(paths@)).subrange(0, paths@.len() as int)
        =~= spec_list_lines(strings_view(paths@)));
}

fn count_line(tone: Tone, label: &str, n: usize) -> (r: SummaryLine)
    ensures
        r@ == (tone, label@ + spec_decimal(n as nat) + "):"@),
{
    let mut text: String = String::from_str(label);
    let digits: String = decimal(n);
    text.append(digits.as_str());
    text.append("):");
    SummaryLine { tone, text }
}

/// The summary printed after preparing: a heading, then the downloaded files and
/// the deleted files, each list counted and shown in ascending order.
pub fn summary_lines(downloaded: Vec<String>, removed: Vec<String>) -> (r: Vec<SummaryLine>)
    ensures
        exists|d: Seq<Seq<char>>, m: Seq<Seq<char>>|
            #![trigger spec_summary(d, m)]
            {
                &&& is_sorted(d)
                &&& d.to_multiset() == strings_view(downloaded@).to_multiset()
                &&& is_sorted(m)
                &&& m.to_multiset() == strings_view(removed@).to_multiset()
                &&& r@.map_values(|l: SummaryLine| l@) == spec_summary(d, m)
            },
{
    let d: Vec<String> = sorted_strings(downloaded);
    let m: Vec<String> = sorted_strings(removed);
    proof {
        vstd::seq_lib::to_multiset_len(strings_view(d@));
        vstd::seq_lib::to_multiset_len(strings_view(m@));
        reveal_strlit("Prepare summary");
        reveal_strlit("  Downloaded (");
        reveal_strlit("  Deleted (");
    }
    let ghost dv: Seq<Seq<char>> = strings_view(d@);
    let ghost mv: Seq<Seq<char>> = strings_view(m@);
    let mut lines: Vec<SummaryLine> = Vec::new();
    lines.push(SummaryLine { tone: Tone::Blue, text: String::from_str("Prepare summary") });
    let first: SummaryLine = count_line(Tone::Green, "  Downloaded (", d.len());
    lines.push(first);
    let ghost head: Seq<(Tone, Seq<char>)> = seq![
        (Tone::Blue, "Prepare summary"@),
        (Tone::Green, "  Downloaded ("@ + spec_decimal(dv.len()) + "):"@),
    ];
    assert(lines@.map_values(|l: SummaryLine| l@) =~= head);
    list_lines(&mut lines, &d);
    let second: SummaryLine = count_line(Tone::Yellow, "  Deleted (", m.len());
    let ghost before: Seq<SummaryLine> = lines@;
    lines.push(second);
    let ghost mid: Seq<(Tone, Seq<char>)> = seq![
        (Tone::Yellow, "  Deleted ("@ + spec_decimal(mv.len()) + "):"@),
    ];
    assert(lines@.map_values(|l: SummaryLine| l@) =~= before.map_values(|l: SummaryLine| l@) + mid);
    list_lines(&mut lines, &m);
    assert(lines@.map_values(|l: SummaryLine| l@) =~= spec_summary(dv, mv));
    lines
}

/// The number that the decimal digits `s` write.
pub open spec fn digits_value(s: Seq<char>) -> int
    decreases s.len(),
{
    if s.len() == 0 {
        0
    } else {
        digits_value(s.drop_last()) * 10 + ((s.last() as u32) - 48)
    }
}

proof fn lemma_digit_char(k: nat)
    requires
        k < 10,
    ensures
        (digit_char(k) as u32) == 48 + k,
        '0' <= digit_char(k) <= '9',
        k > 0 ==> digit_char(k) != '0',
{
}

/// Law: `decimal` writes `n` in decimal digits, with no leading zero.
pub proof fn lemma_decimal_value(n: nat)
    ensures
        spec_decimal(n).len() > 0,
        forall|i: int| 0 <= i < spec_decimal(n).len() ==> '0' <= #[trigger] spec_decimal(n)[i] <= '9',
        digits_value(spec_decimal(n)) == n,
        spec_decimal(n).len() > 1 ==> spec_decimal(n)[0] != '0',
    decreases n,
{
    let d: Seq<char> = spec_decimal(n);
    if n < 10 {
        lemma_digit_char(n);
        assert(d == seq![digit_char(n)]);
        assert(d.drop_last() =~= Seq::<char>::empty());
        assert(digits_value(d) == digits_value(d.drop_last()) * 10 + ((d.last() as u32) - 48));
    } else {
        lemma_decimal_value(n / 10);
        lemma_digit_char(n % 10);
        let p: Seq<char> = spec_decimal(n / 10);
        assert(d == p.push(digit_char(n % 10)));
        assert(d.drop_last() == p);
        assert(d[0] == p[0]);
        assert(digits_value(d) == digits_value(p) * 10 + ((d.last() as u32) - 48));
        assert((n / 10) * 10 + n % 10 == n);
        assert forall|i: int| 0 <= i < d.len() implies '0' <= #[trigger] d[i] <= '9' by {
            if i < p.len() {
                assert(d[i] == p[i]);
            }
        }
        if n / 10 < 10 {
            lemma_digit_char(n / 10);
            assert(p == seq![digit_char(n / 10)]);
        } else {
            lemma_decimal_value(n / 10 / 10);
            assert(p == spec_decimal(n / 10 / 10).push(digit_char((n / 10) % 10)));
            assert(p.len() > 1);
        }
    }
}

} // verus!

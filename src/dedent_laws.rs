//! Properties of the dedent engine.
use vstd::prelude::*;
use crate::text::{
    blank, common_indent, dedent_lines, dedent_spec, first_filled, is_ws, join_nl, last_filled,
    lead_spaces, lines_of, ws_end, min_lead, space_end, split_nl, strip_cr, strip_indent, trim_blank_lines,
};

verus! {

pub open spec fn no_nl(l: Seq<char>) -> bool {
    !l.contains('\n')
}

pub open spec fn ends_cr(l: Seq<char>) -> bool {
    l.len() > 0 && l.last() == '\r'
}

proof fn lemma_split_single(l: Seq<char>)
    requires
        no_nl(l),
    ensures
        split_nl(l) == seq![l],
    decreases l.len(),
{
    if l.len() > 0 {
        assert(!l.drop_last().contains('\n')) by {
            if l.drop_last().contains('\n') {
                let i = choose|i: int| 0 <= i < l.drop_last().len() && l.drop_last()[i] == '\n';
                assert(l[i] == '\n');
            }
        }
        lemma_split_single(l.drop_last());
        assert(l.last() != '\n') by {
            assert(l[l.len() - 1] == l.last());
        }
        assert(l.drop_last().push(l.last()) =~= l);
        assert(seq![l.drop_last()].update(0, l.drop_last().push(l.last())) =~= seq![l]);
    } else {
        assert(l =~= Seq::<char>::empty());
    }
}

proof fn lemma_split_after_nl(a: Seq<char>, b: Seq<char>)
    requires
        no_nl(b),
    ensures
        split_nl(a + seq!['\n'] + b) == split_nl(a).push(b),
    decreases b.len(),
{
    if b.len() == 0 {
        assert(a + seq!['\n'] + b =~= a + seq!['\n']);
        assert((a + seq!['\n']).drop_last() =~= a);
        assert(b =~= Seq::<char>::empty());
    } else {
        let b2 = b.drop_last();
        assert(!b2.contains('\n')) by {
            if b2.contains('\n') {
                let i = choose|i: int| 0 <= i < b2.len() && b2[i] == '\n';
                assert(b[i] == '\n');
            }
        }
        lemma_split_after_nl(a, b2);
        let s = a + seq!['\n'] + b;
        assert(s.drop_last() =~= a + seq!['\n'] + b2);
        assert(s.last() == b.last());
        assert(b[b.len() - 1] == b.last());
        assert(b2.push(b.last()) =~= b);
        assert(split_nl(a).push(b2).update(split_nl(a).len() as int, b2.push(b.last())) =~= split_nl(a).push(b));
    }
}

proof fn lemma_split_join(ls: Seq<Seq<char>>)
    requires
        ls.len() >= 1,
        forall|i: int| 0 <= i < ls.len() ==> no_nl(#[trigger] ls[i]),
    ensures
        split_nl(join_nl(ls)) == ls,
    decreases ls.len(),
{
    if ls.len() == 1 {
        lemma_split_single(ls[0]);
        assert(seq![ls[0]] =~= ls);
    } else {
        let init = ls.drop_last();
        assert forall|i: int| 0 <= i < init.len() implies no_nl(#[trigger] init[i]) by {
            assert(init[i] == ls[i]);
        }
        lemma_split_join(init);
        assert(no_nl(ls[ls.len() - 1]));
        lemma_split_after_nl(join_nl(init), ls.last());
        assert(init.push(ls.last()) =~= ls);
    }
}

/// Joining lines and cutting the text into lines again gives them back.
proof fn lemma_lines_join(ls: Seq<Seq<char>>)
    requires
        ls.len() >= 1,
        ls.last().len() > 0,
        forall|i: int| 0 <= i < ls.len() ==> no_nl(#[trigger] ls[i]),
        forall|i: int| 0 <= i < ls.len() - 1 ==> !ends_cr(#[trigger] ls[i]),
    ensures
        lines_of(join_nl(ls)) == ls,
{
    lemma_split_join(ls);
    let p = split_nl(join_nl(ls));
    let k = p.len() - 1;
    assert(Seq::new(k as nat, |i: int| strip_cr(p[i])) =~= ls.drop_last());
    assert(ls.drop_last() + seq![ls.last()] =~= ls);
}

proof fn lemma_split_no_nl(s: Seq<char>)
    ensures
        forall|i: int| 0 <= i < split_nl(s).len() ==> no_nl(#[trigger] split_nl(s)[i]),
        split_nl(s).len() >= 1,
    decreases s.len(),
{
    if s.len() > 0 {
        lemma_split_no_nl(s.drop_last());
        let p = split_nl(s.drop_last());
        if s.last() != '\n' {
            let q = p.last().push(s.last());
            assert(no_nl(p[p.len() - 1]));
            assert(no_nl(q)) by {
                if q.contains('\n') {
                    let i = choose|i: int| 0 <= i < q.len() && q[i] == '\n';
                    if i < p.last().len() {
                        assert(p.last()[i] == '\n');
                    }
                }
            }
        } else {
            assert(no_nl(Seq::<char>::empty()));
        }
    }
}

proof fn lemma_lines_no_nl(s: Seq<char>)
    ensures
        forall|i: int| 0 <= i < lines_of(s).len() ==> no_nl(#[trigger] lines_of(s)[i]),
{
    lemma_split_no_nl(s);
    let p = split_nl(s);
    assert forall|i: int| 0 <= i < lines_of(s).len() implies no_nl(#[trigger] lines_of(s)[i]) by {
        if i < p.len() - 1 {
            assert(no_nl(p[i]));
            let l = strip_cr(p[i]);
            if l.contains('\n') {
                let j = choose|j: int| 0 <= j < l.len() && l[j] == '\n';
                assert(p[i][j] == '\n');
            }
        } else {
            assert(lines_of(s)[i] == p[p.len() - 1]);
        }
    }
}

proof fn lemma_min_lead(ls: Seq<Seq<char>>, n: int)
    requires
        0 <= n <= ls.len(),
    ensures
        min_lead(ls, n) is None <==> forall|i: int| 0 <= i < n ==> blank(#[trigger] ls[i]),
        min_lead(ls, n) matches Some(m) ==> (forall|i: int|
            0 <= i < n && !blank(#[trigger] ls[i]) ==> m <= lead_spaces(ls[i])) && exists|i: int|
            0 <= i < n && !blank(#[trigger] ls[i]) && lead_spaces(ls[i]) == m,
    decreases n,
{
    if n > 0 {
        lemma_min_lead(ls, n - 1);
    }
}

proof fn lemma_space_end_bounds(l: Seq<char>, i: int)
    requires
        0 <= i <= l.len(),
    ensures
        i <= space_end(l, i) <= l.len(),
        forall|j: int| i <= j < space_end(l, i) ==> l[j] == ' ',
        space_end(l, i) < l.len() ==> l[space_end(l, i)] != ' ',
    decreases l.len() - i,
{
    if i < l.len() && l[i] == ' ' {
        lemma_space_end_bounds(l, i + 1);
    }
}

proof fn lemma_space_end_skip(l: Seq<char>, m: int, i: int)
    requires
        0 <= m <= l.len(),
        0 <= i <= l.len() - m,
    ensures
        space_end(l.skip(m), i) == space_end(l, i + m) - m,
    decreases l.len() - m - i,
{
    if i < l.len() - m && l[i + m] == ' ' {
        lemma_space_end_skip(l, m, i + 1);
    }
}

/// A non-blank line keeps a non-blank form after losing an indentation it has.
proof fn lemma_strip_filled(l: Seq<char>, m: nat)
    requires
        !blank(l),
        m <= lead_spaces(l),
    ensures
        l.len() >= m,
        strip_indent(l, m) == l.skip(m as int),
        !blank(l.skip(m as int)),
        lead_spaces(l.skip(m as int)) + m == lead_spaces(l),
{
    lemma_space_end_bounds(l, 0);
    let j = choose|j: int| 0 <= j < l.len() && !is_ws(#[trigger] l[j]);
    if j < m {
        assert(l[j] == ' ');
    }
    assert(l.skip(m as int)[j - m] == l[j]);
    lemma_space_end_skip(l, m as int, 0);
    lemma_space_end_mid(l, m as int);
}

proof fn lemma_space_end_mid(l: Seq<char>, i: int)
    requires
        0 <= i <= space_end(l, 0),
    ensures
        space_end(l, i) == space_end(l, 0),
    decreases i,
{
    lemma_space_end_bounds(l, 0);
    if i > 0 {
        lemma_space_end_mid(l, i - 1);
        assert(l[i - 1] == ' ');
    }
}

proof fn lemma_skip_no_nl(l: Seq<char>, k: int)
    requires
        no_nl(l),
        0 <= k <= l.len(),
    ensures
        no_nl(l.skip(k)),
{
    if l.skip(k).contains('\n') {
        let j = choose|j: int| 0 <= j < l.skip(k).len() && l.skip(k)[j] == '\n';
        assert(l[j + k] == '\n');
    }
}

proof fn lemma_ws_end_bounds(l: Seq<char>, i: int)
    requires
        0 <= i <= l.len(),
    ensures
        i <= ws_end(l, i) <= l.len(),
    decreases l.len() - i,
{
    if i < l.len() && is_ws(l[i]) {
        lemma_ws_end_bounds(l, i + 1);
    }
}

/// What dedent leaves of the lines of `x`: the non-blank ones lose exactly
/// the shared indentation.
pub open spec fn dedented_lines_of(x: Seq<char>) -> Seq<Seq<char>> {
    dedent_lines(trim_blank_lines(lines_of(x)))
}

proof fn lemma_trim_ends(ls: Seq<Seq<char>>)
    ensures
        trim_blank_lines(ls).len() > 0 ==> !blank(trim_blank_lines(ls)[0]) && !blank(
            trim_blank_lines(ls).last(),
        ),
        forall|i: int|
            0 <= i < trim_blank_lines(ls).len() ==> #[trigger] trim_blank_lines(ls)[i] == ls[i
                + first_filled(ls, 0)],
        0 <= first_filled(ls, 0) <= ls.len(),
        first_filled(ls, 0) + trim_blank_lines(ls).len() <= ls.len(),
{
    lemma_first_filled(ls, 0);
    let a = first_filled(ls, 0);
    lemma_last_filled(ls, a, ls.len() as int);
}

proof fn lemma_first_filled(ls: Seq<Seq<char>>, i: int)
    requires
        0 <= i <= ls.len(),
    ensures
        i <= first_filled(ls, i) <= ls.len(),
        first_filled(ls, i) < ls.len() ==> !blank(ls[first_filled(ls, i)]),
    decreases ls.len() - i,
{
    if i < ls.len() && blank(ls[i]) {
        lemma_first_filled(ls, i + 1);
    }
}

proof fn lemma_last_filled(ls: Seq<Seq<char>>, a: int, j: int)
    requires
        0 <= a <= j <= ls.len(),
        a < ls.len() ==> !blank(ls[a]),
    ensures
        a <= last_filled(ls, a, j) <= j,
        a < j ==> a < last_filled(ls, a, j) && !blank(ls[last_filled(ls, a, j) - 1]),
    decreases j - a,
{
    if a < j && blank(ls[j - 1]) {
        lemma_last_filled(ls, a, j - 1);
    }
}

/// Dedent leaves every non-blank line of the block without exactly the
/// indentation that they all share, so their relative alignment is kept:
/// the shared indentation is the least of them, and some line starts at
/// column zero afterwards.
pub proof fn lemma_dedent_keeps_alignment(x: Seq<char>)
    ensures
        ({
            let t = trim_blank_lines(lines_of(x));
            let m = common_indent(t);
            let d = dedented_lines_of(x);
            &&& d.len() == t.len()
            &&& dedent_spec(x) == join_nl(d)
            &&& forall|i: int| 0 <= i < t.len() && !blank(#[trigger] t[i]) ==> m <= lead_spaces(t[i])
                && d[i] == t[i].skip(m as int) && lead_spaces(d[i]) + m == lead_spaces(t[i])
                && !blank(d[i])
            &&& t.len() > 0 ==> exists|i: int| 0 <= i < t.len() && !blank(#[trigger] t[i]) && lead_spaces(d[i]) == 0
        }),
{
    let t = trim_blank_lines(lines_of(x));
    let m = common_indent(t);
    let d = dedented_lines_of(x);
    lemma_min_lead(t, t.len() as int);
    lemma_trim_ends(lines_of(x));
    assert forall|i: int| 0 <= i < t.len() && !blank(#[trigger] t[i]) implies m <= lead_spaces(t[i])
        && d[i] == t[i].skip(m as int) && lead_spaces(d[i]) + m == lead_spaces(t[i]) && !blank(d[i]) by {
        lemma_strip_filled(t[i], m);
    }
    if t.len() > 0 {
        assert(!blank(t[0]));
        let i = choose|i: int| 0 <= i < t.len() && !blank(#[trigger] t[i]) && lead_spaces(t[i]) == m;
        lemma_strip_filled(t[i], m);
    }
}

/// Dedenting twice is dedenting once, for every block none of whose
/// dedented lines but the last ends in a carriage return (such a line would
/// lose it when cut into lines again).
pub proof fn lemma_dedent_idempotent(x: Seq<char>)
    requires
        forall|i: int| 0 <= i < dedented_lines_of(x).len() - 1 ==> !ends_cr(#[trigger] dedented_lines_of(x)[i]),
    ensures
        dedent_spec(dedent_spec(x)) == dedent_spec(x),
{
    let t = trim_blank_lines(lines_of(x));
    let m = common_indent(t);
    let d = dedented_lines_of(x);
    lemma_dedent_keeps_alignment(x);
    lemma_trim_ends(lines_of(x));
    if t.len() == 0 {
        assert(d =~= Seq::<Seq<char>>::empty());
        let e = Seq::<char>::empty();
        lemma_split_single(e);
        assert(lines_of(e) =~= Seq::<Seq<char>>::empty());
        assert(trim_blank_lines(lines_of(e)) =~= Seq::<Seq<char>>::empty());
        assert(dedent_lines(Seq::<Seq<char>>::empty()) =~= Seq::<Seq<char>>::empty());
    } else {
        lemma_lines_no_nl(x);
        assert forall|i: int| 0 <= i < d.len() implies no_nl(#[trigger] d[i]) by {
            let l = t[i];
            assert(l == lines_of(x)[i + first_filled(lines_of(x), 0)]);
            assert(no_nl(l));
            let r = strip_indent(l, m);
            assert(r == d[i]);
            if l.len() >= m {
                lemma_skip_no_nl(l, m as int);
            } else {
                lemma_ws_end_bounds(l, 0);
                lemma_skip_no_nl(l, ws_end(l, 0));
            }
        }
        let last = d.len() - 1;
        assert(!blank(t[last]));
        assert(!blank(d[last]));
        assert(d.last().len() > 0);
        lemma_lines_join(d);
        // the block is its own trimmed block
        lemma_first_filled(d, 0);
        assert(!blank(d[0]));
        assert(first_filled(d, 0) == 0);
        assert(last_filled(d, 0, d.len() as int) == d.len());
        assert(trim_blank_lines(d) =~= d);
        lemma_min_lead(d, d.len() as int);
        let i0 = choose|i: int| 0 <= i < t.len() && !blank(#[trigger] t[i]) && lead_spaces(d[i]) == 0;
        assert(!blank(d[i0]));
        assert(common_indent(d) == 0);
        assert forall|i: int| 0 <= i < d.len() implies #[trigger] dedent_lines(d)[i] == d[i] by {
            assert(d[i].skip(0) =~= d[i]);
        }
        assert(dedent_lines(d) =~= d);
    }
}


/// `r` after `n` spaces.
pub open spec fn pad(n: nat, r: Seq<char>) -> Seq<char> {
    Seq::new(n, |j: int| ' ') + r
}

proof fn lemma_space_end_prefix(l: Seq<char>, i: int, n: int)
    requires
        0 <= i <= n <= l.len(),
        forall|j: int| i <= j < n ==> l[j] == ' ',
    ensures
        space_end(l, i) == space_end(l, n),
    decreases n - i,
{
    if i < n {
        lemma_space_end_prefix(l, i + 1, n);
    }
}

proof fn lemma_pad_line(n: nat, r: Seq<char>)
    ensures
        lead_spaces(pad(n, r)) == n + lead_spaces(r),
        blank(pad(n, r)) == blank(r),
        pad(n, r).skip(n as int) == r,
        no_nl(r) ==> no_nl(pad(n, r)),
        !r.contains('\r') ==> !ends_cr(pad(n, r)),
{
    let l = pad(n, r);
    assert(l.skip(n as int) =~= r);
    lemma_space_end_prefix(l, 0, n as int);
    lemma_space_end_skip(l, n as int, 0);
    lemma_space_end_bounds(l, n as int);
    assert(space_end(r, 0) == space_end(l, n as int) - n);
    assert(lead_spaces(l) == n + lead_spaces(r));
    assert(blank(l) == blank(r)) by {
        if blank(r) {
            assert forall|i: int| 0 <= i < l.len() implies is_ws(#[trigger] l[i]) by {
                if i >= n {
                    assert(l[i] == r[i - n]);
                }
            }
        }
        if blank(l) {
            assert forall|i: int| 0 <= i < r.len() implies is_ws(#[trigger] r[i]) by {
                assert(l[i + n] == r[i]);
            }
        }
    }
    if no_nl(r) && l.contains('\n') {
        let j = choose|j: int| 0 <= j < l.len() && l[j] == '\n';
        assert(r[j - n] == '\n');
    }
    if !r.contains('\r') && ends_cr(l) {
        assert(l[l.len() - 1] == '\r');
        if r.len() > 0 {
            assert(r[r.len() - 1] == '\r');
        }
    }
}

/// A block whose lines all carry the same `n` leading spaces, beyond which
/// at least one non-blank line starts at column zero, dedents to its lines
/// without those spaces: exactly the uniform indentation goes, and the
/// alignment of the lines to one another stays.
pub proof fn lemma_dedent_removes_uniform_indent(n: nat, rs: Seq<Seq<char>>)
    requires
        rs.len() >= 1,
        forall|i: int| 0 <= i < rs.len() ==> no_nl(#[trigger] rs[i]) && !rs[i].contains('\r'),
        !blank(rs[0]),
        !blank(rs.last()),
        exists|i: int| 0 <= i < rs.len() && !blank(#[trigger] rs[i]) && rs[i][0] != ' ',
    ensures
        dedent_spec(join_nl(rs.map_values(|r: Seq<char>| pad(n, r)))) == join_nl(rs),
{
    let ps = rs.map_values(|r: Seq<char>| pad(n, r));
    assert forall|i: int| 0 <= i < rs.len() implies lead_spaces(#[trigger] ps[i]) == n + lead_spaces(rs[i])
        && blank(ps[i]) == blank(rs[i]) && ps[i].skip(n as int) == rs[i] && no_nl(ps[i]) && !ends_cr(ps[i]) by {
        lemma_pad_line(n, rs[i]);
    }
    assert(ps.last() == ps[ps.len() - 1]);
    assert(rs.last() == rs[rs.len() - 1]);
    assert(ps.last().len() > 0) by {
        if ps.last().len() == 0 {
            assert(blank(ps.last()));
        }
    }
    lemma_lines_join(ps);
    assert(first_filled(ps, 0) == 0);
    assert(last_filled(ps, 0, ps.len() as int) == ps.len());
    assert(trim_blank_lines(ps) =~= ps);
    lemma_min_lead(ps, ps.len() as int);
    let i0 = choose|i: int| 0 <= i < rs.len() && !blank(#[trigger] rs[i]) && rs[i][0] != ' ';
    assert(lead_spaces(rs[i0]) == 0) by {
        assert(rs[i0].len() > 0);
    }
    assert(!blank(ps[i0]));
    assert(common_indent(ps) == n);
    assert forall|i: int| 0 <= i < ps.len() implies #[trigger] dedent_lines(ps)[i] == rs[i] by {
        assert(ps[i].len() >= n);
    }
    assert(dedent_lines(ps) =~= rs);
}

} // verus!

//! Characters, lines and the dedent engine.
use vstd::prelude::*;

verus! {

/// Relies on `str::chars`: the characters of `s` in order.
#[verifier::external_body]
pub(crate) fn chars_of(s: &str) -> (r: Vec<char>)
    ensures
        r@ == s@,
{
    s.chars().collect()
}

/// Relies on collecting characters into a `String`: the text of those characters.
#[verifier::external_body]
pub(crate) fn string_of(v: &Vec<char>) -> (r: String)
    ensures
        r@ == v@,
{
    v.iter().collect()
}

/// The characters that have the Unicode `White_Space` property.
pub open spec fn is_ws(c: char) -> bool {
    let u = c as u32;
    (0x9 <= u <= 0xd) || u == 0x20 || u == 0x85 || u == 0xa0 || u == 0x1680 || (0x2000 <= u
        <= 0x200a) || u == 0x2028 || u == 0x2029 || u == 0x202f || u == 0x205f || u == 0x3000
}

pub fn is_whitespace(c: char) -> (r: bool)
    ensures
        r == is_ws(c),
{
    let u = c as u32;
    (0x9 <= u && u <= 0xd) || u == 0x20 || u == 0x85 || u == 0xa0 || u == 0x1680 || (0x2000 <= u
        && u <= 0x200a) || u == 0x2028 || u == 0x2029 || u == 0x202f || u == 0x205f || u == 0x3000
}

/// A line that holds only whitespace (or nothing).
pub open spec fn blank(l: Seq<char>) -> bool {
    forall|i: int| 0 <= i < l.len() ==> is_ws(#[trigger] l[i])
}

pub fn is_blank(l: &Vec<char>) -> (r: bool)
    ensures
        r == blank(l@),
{
    let mut i: usize = 0;
    while i < l.len()
        invariant
            i <= l.len(),
            forall|j: int| 0 <= j < i ==> is_ws(#[trigger] l@[j]),
        decreases l.len() - i,
    {
        if !is_whitespace(l[i]) {
            return false;
        }
        i = i + 1;
    }
    true
}

/// `s` cut at every line feed; always at least one piece.
pub open spec fn split_nl(s: Seq<char>) -> Seq<Seq<char>>
    decreases s.len(),
{
    if s.len() == 0 {
        seq![Seq::<char>::empty()]
    } else {
        let p = split_nl(s.drop_last());
        if s.last() == '\n' {
            p.push(Seq::<char>::empty())
        } else {
            p.update(p.len() - 1, p.last().push(s.last()))
        }
    }
}

/// A line that ended with a line feed loses one carriage return before it.
pub open spec fn strip_cr(l: Seq<char>) -> Seq<char> {
    if l.len() > 0 && l.last() == '\r' {
        l.drop_last()
    } else {
        l
    }
}

/// The lines of `s`: every line feed ends a line (dropping a carriage return
/// just before it), and a last piece that no line feed ends counts only when
/// it is not empty.
pub open spec fn lines_of(s: Seq<char>) -> Seq<Seq<char>> {
    let p = split_nl(s);
    let k = p.len() - 1;
    Seq::new(k as nat, |i: int| strip_cr(p[i])) + if p[k].len() > 0 {
        seq![p[k]]
    } else {
        Seq::<Seq<char>>::empty()
    }
}

pub open spec fn views(v: Seq<Vec<char>>) -> Seq<Seq<char>> {
    v.map_values(|l: Vec<char>| l@)
}

fn strip_cr_exec(l: &mut Vec<char>)
    ensures
        final(l)@ == strip_cr(old(l)@),
{
    let n = l.len();
    if n > 0 && l[n - 1] == '\r' {
        l.pop();
    }
}

/// Splits a text into its lines.
pub fn split_lines(v: &Vec<char>) -> (r: Vec<Vec<char>>)
    ensures
        views(r@) == lines_of(v@),
{
    let mut done: Vec<Vec<char>> = Vec::new();
    let mut cur: Vec<char> = Vec::new();
    let ghost mut raw: Seq<Seq<char>> = seq![];
    let mut i: usize = 0;
    assert(v@.take(0) =~= Seq::<char>::empty());
    while i < v.len()
        invariant
            i <= v.len(),
            split_nl(v@.take(i as int)) == raw.push(cur@),
            done.len() == raw.len(),
            forall|j: int| 0 <= j < raw.len() ==> (#[trigger] done@[j])@ == strip_cr(raw[j]),
        decreases v.len() - i,
    {
        let c = v[i];
        assert(v@.take(i + 1).drop_last() =~= v@.take(i as int));
        if c == '\n' {
            let mut line = cur;
            strip_cr_exec(&mut line);
            done.push(line);
            proof {
                raw = raw.push(cur@);
            }
            cur = Vec::new();
            assert(split_nl(v@.take(i + 1)) =~= raw.push(cur@));
        } else {
            cur.push(c);
            assert(split_nl(v@.take(i + 1)) =~= raw.push(cur@));
        }
        i = i + 1;
    }
    assert(v@.take(i as int) =~= v@);
    if cur.len() > 0 {
        done.push(cur);
    }
    assert(views(done@) =~= lines_of(v@));
    done
}


/// Index of the first line at or after `i` that is not blank.
pub open spec fn first_filled(ls: Seq<Seq<char>>, i: int) -> int
    decreases ls.len() - i,
{
    if 0 <= i < ls.len() && blank(ls[i]) {
        first_filled(ls, i + 1)
    } else {
        i
    }
}

/// One past the last line before `j`, and not before `a`, that is not blank.
pub open spec fn last_filled(ls: Seq<Seq<char>>, a: int, j: int) -> int
    decreases j - a,
{
    if a < j <= ls.len() && blank(ls[j - 1]) {
        last_filled(ls, a, j - 1)
    } else {
        j
    }
}

/// The lines without the blank lines at either end.
pub open spec fn trim_blank_lines(ls: Seq<Seq<char>>) -> Seq<Seq<char>> {
    let a = first_filled(ls, 0);
    ls.subrange(a, last_filled(ls, a, ls.len() as int))
}

/// Position of the first character at or after `i` that is not a space.
pub open spec fn space_end(l: Seq<char>, i: int) -> int
    decreases l.len() - i,
{
    if 0 <= i < l.len() && l[i] == ' ' {
        space_end(l, i + 1)
    } else {
        i
    }
}

/// Number of spaces that start `l`.
pub open spec fn lead_spaces(l: Seq<char>) -> nat {
    space_end(l, 0) as nat
}

/// The least indentation among the non-blank lines of `ls.take(n)`.
pub open spec fn min_lead(ls: Seq<Seq<char>>, n: int) -> Option<nat>
    decreases n,
{
    if n <= 0 {
        None
    } else {
        let r = min_lead(ls, n - 1);
        let l = ls[n - 1];
        if blank(l) {
            r
        } else {
            match r {
                None => Some(lead_spaces(l)),
                Some(m) => Some(if lead_spaces(l) < m { lead_spaces(l) } else { m }),
            }
        }
    }
}

/// The indentation common to all non-blank lines; zero where there is none.
pub open spec fn common_indent(ls: Seq<Seq<char>>) -> nat {
    match min_lead(ls, ls.len() as int) {
        Some(m) => m,
        None => 0,
    }
}

/// Position of the first character at or after `i` that is not whitespace.
pub open spec fn ws_end(l: Seq<char>, i: int) -> int
    decreases l.len() - i,
{
    if 0 <= i < l.len() && is_ws(l[i]) {
        ws_end(l, i + 1)
    } else {
        i
    }
}

pub open spec fn trim_start(l: Seq<char>) -> Seq<char> {
    l.skip(ws_end(l, 0))
}

/// `l` without its first `m` characters, or without its leading whitespace
/// where it is shorter than `m`.
pub open spec fn strip_indent(l: Seq<char>, m: nat) -> Seq<char> {
    if l.len() >= m {
        l.skip(m as int)
    } else {
        trim_start(l)
    }
}

/// The lines joined with a line feed between each two.
pub open spec fn join_nl(ls: Seq<Seq<char>>) -> Seq<char>
    decreases ls.len(),
{
    if ls.len() == 0 {
        Seq::<char>::empty()
    } else if ls.len() == 1 {
        ls[0]
    } else {
        join_nl(ls.drop_last()) + seq!['\n'] + ls.last()
    }
}

pub open spec fn dedent_lines(t: Seq<Seq<char>>) -> Seq<Seq<char>> {
    t.map_values(|l: Seq<char>| strip_indent(l, common_indent(t)))
}

/// The text without its blank lines at either end and without the
/// indentation that all its non-blank lines share.
pub open spec fn dedent_spec(s: Seq<char>) -> Seq<char> {
    join_nl(dedent_lines(trim_blank_lines(lines_of(s))))
}

fn count_spaces(l: &Vec<char>) -> (r: usize)
    ensures
        r == lead_spaces(l@),
{
    let mut i: usize = 0;
    while i < l.len() && l[i] == ' '
        invariant
            i <= l.len(),
            space_end(l@, 0) == space_end(l@, i as int),
        decreases l.len() - i,
    {
        i = i + 1;
    }
    i
}

pub(crate) fn push_from(out: &mut Vec<char>, l: &Vec<char>, from: usize)
    requires
        from <= l.len(),
    ensures
        final(out)@ == old(out)@ + l@.skip(from as int),
{
    let mut i = from;
    while i < l.len()
        invariant
            from <= i <= l.len(),
            out@ == old(out)@ + l@.subrange(from as int, i as int),
        decreases l.len() - i,
    {
        out.push(l[i]);
        i = i + 1;
        assert(out@ =~= old(out)@ + l@.subrange(from as int, i as int));
    }
    assert(l@.subrange(from as int, i as int) =~= l@.skip(from as int));
}

/// Appends `strip_indent(l, m)` to `out`.
fn push_stripped(out: &mut Vec<char>, l: &Vec<char>, m: usize)
    ensures
        final(out)@ == old(out)@ + strip_indent(l@, m as nat),
{
    if l.len() >= m {
        push_from(out, l, m);
    } else {
        let mut i: usize = 0;
        while i < l.len() && is_whitespace(l[i])
            invariant
                i <= l.len(),
                ws_end(l@, 0) == ws_end(l@, i as int),
            decreases l.len() - i,
        {
            i = i + 1;
        }
        push_from(out, l, i);
    }
}

/// Removes the blank lines at both ends of `s` and the indentation shared by
/// all of its non-blank lines.
pub fn dedent(s: &str) -> (r: String)
    ensures
        r@ == dedent_spec(s@),
{
    let v = chars_of(s);
    let ls = split_lines(&v);
    let ghost g = views(ls@);
    let n = ls.len();
    let mut a: usize = 0;
    while a < n && is_blank(&ls[a])
        invariant
            a <= n,
            n == g.len(),
            g == views(ls@),
            first_filled(g, 0) == first_filled(g, a as int),
        decreases n - a,
    {
        a = a + 1;
    }
    let mut e: usize = n;
    while e > a && is_blank(&ls[e - 1])
        invariant
            a <= e <= n,
            n == g.len(),
            g == views(ls@),
            last_filled(g, a as int, n as int) == last_filled(g, a as int, e as int),
        decreases e - a,
    {
        e = e - 1;
    }
    let ghost t = g.subrange(a as int, e as int);
    assert(t == trim_blank_lines(g));
    let mut m: usize = 0;
    let mut found = false;
    let mut i: usize = a;
    while i < e
        invariant
            a <= i <= e <= n,
            n == g.len(),
            g == views(ls@),
            t == g.subrange(a as int, e as int),
            found ==> min_lead(t, i - a) == Some(m as nat),
            !found ==> min_lead(t, i - a) == None::<nat> && m == 0,
        decreases e - i,
    {
        assert(t[i - a] == ls@[i as int]@);
        if !is_blank(&ls[i]) {
            let c = count_spaces(&ls[i]);
            if !found || c < m {
                m = c;
            }
            found = true;
        }
        i = i + 1;
    }
    assert(t.len() == i - a);
    proof {
        if found {
            assert(min_lead(t, t.len() as int) == Some(m as nat));
        } else {
            assert(min_lead(t, t.len() as int) == None::<nat>);
        }
    }
    assert(m == common_indent(t));
    let mut out: Vec<char> = Vec::new();
    let ghost d = dedent_lines(t);
    let mut k: usize = a;
    while k < e
        invariant
            a <= k <= e <= n,
            n == g.len(),
            g == views(ls@),
            t == g.subrange(a as int, e as int),
            m == common_indent(t),
            d == dedent_lines(t),
            out@ == join_nl(d.take(k - a)),
        decreases e - k,
    {
        assert(d.take(k - a + 1).drop_last() =~= d.take(k - a));
        assert(t[k - a] == ls@[k as int]@);
        if k > a {
            out.push('\n');
        } else {
            assert(d.take(0) =~= Seq::<Seq<char>>::empty());
        }
        push_stripped(&mut out, &ls[k], m);
        k = k + 1;
        assert(out@ =~= join_nl(d.take(k - a)));
    }
    assert(d.take(e - a) =~= d);
    string_of(&out)
}

} // verus!

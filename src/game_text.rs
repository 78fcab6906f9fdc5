use vstd::prelude::*;

verus! {

/// The characters of `text`, in order.
pub fn chars_of(text: &str) -> (r: Vec<char>)
    ensures
        r@ == text@,
{
    let mut out: Vec<char> = Vec::new();
    for c in it: text.chars()
        invariant
            out@ == it.seq().subrange(0, it.index() as int),
    {
        out.push(c);
    }
    out
}

/// Unicode's White_Space characters.
pub open spec fn is_ws(c: char) -> bool {
    let u = c as u32;
    (0x9 <= u <= 0xD) || u == 0x20 || u == 0x85 || u == 0xA0 || u == 0x1680 || (0x2000 <= u
        <= 0x200A) || u == 0x2028 || u == 0x2029 || u == 0x202F || u == 0x205F || u == 0x3000
}

pub fn is_whitespace(c: char) -> (r: bool)
    ensures
        r == is_ws(c),
{
    let u = c as u32;
    (0x9 <= u && u <= 0xD) || u == 0x20 || u == 0x85 || u == 0xA0 || u == 0x1680 || (0x2000 <= u
        && u <= 0x200A) || u == 0x2028 || u == 0x2029 || u == 0x202F || u == 0x205F || u == 0x3000
}

/// `l` without its leading white space.
pub open spec fn trim_start(l: Seq<char>) -> Seq<char>
    decreases l.len(),
{
    if l.len() > 0 && is_ws(l[0]) {
        trim_start(l.drop_first())
    } else {
        l
    }
}

/// `l` without its trailing white space.
pub open spec fn trim_end(l: Seq<char>) -> Seq<char>
    decreases l.len(),
{
    if l.len() > 0 && is_ws(l.last()) {
        trim_end(l.drop_last())
    } else {
        l
    }
}

/// `l` without white space at either end.
pub open spec fn trim(l: Seq<char>) -> Seq<char> {
    trim_end(trim_start(l))
}

/// A copy of `l` without white space at either end.
pub fn trimmed(l: &Vec<char>) -> (r: Vec<char>)
    ensures
        r@ == trim(l@),
{
    let n = l.len();
    let mut a: usize = 0;
    assert(l@.subrange(0, n as int) =~= l@);
    while a < n && is_whitespace(l[a])
        invariant
            n == l@.len(),
            a <= n,
            trim_start(l@) == trim_start(l@.subrange(a as int, n as int)),
        decreases n - a,
    {
        assert(l@.subrange(a as int, n as int).drop_first() =~= l@.subrange(a + 1, n as int));
        a = a + 1;
    }
    let ghost s = l@.subrange(a as int, n as int);
    assert(trim_start(l@) == s);
    let mut b: usize = n;
    while b > a && is_whitespace(l[b - 1])
        invariant
            n == l@.len(),
            a <= b <= n,
            s == l@.subrange(a as int, n as int),
            trim_end(s) == trim_end(l@.subrange(a as int, b as int)),
        decreases b - a,
    {
        assert(l@.subrange(a as int, b as int).drop_last() =~= l@.subrange(a as int, b - 1));
        b = b - 1;
    }
    let mut out: Vec<char> = Vec::new();
    let mut k: usize = a;
    while k < b
        invariant
            a <= k <= b <= n,
            n == l@.len(),
            out@ == l@.subrange(a as int, k as int),
        decreases b - k,
    {
        out.push(l[k]);
        assert(out@ =~= l@.subrange(a as int, k + 1));
        k = k + 1;
    }
    out
}

/// `l` without the carriage return that may close it.
pub open spec fn strip_cr(l: Seq<char>) -> Seq<char> {
    if l.len() > 0 && l.last() == '\r' {
        l.drop_last()
    } else {
        l
    }
}

/// Reading `s` from the left: the lines closed by a newline so far, and the line still open.
pub open spec fn line_scan(s: Seq<char>) -> (Seq<Seq<char>>, Seq<char>)
    decreases s.len(),
{
    if s.len() == 0 {
        (Seq::empty(), Seq::empty())
    } else {
        let st = line_scan(s.drop_last());
        if s.last() == '\n' {
            (st.0.push(strip_cr(st.1)), Seq::empty())
        } else {
            (st.0, st.1.push(s.last()))
        }
    }
}

/// The lines of `s`: the pieces between newlines, each without the carriage return before its
/// newline; a last piece is a line only if it is not empty.
pub open spec fn lines_of(s: Seq<char>) -> Seq<Seq<char>> {
    let st = line_scan(s);
    if st.1.len() == 0 {
        st.0
    } else {
        st.0.push(st.1)
    }
}

/// The views of a vector of lines.
pub open spec fn lines_view(v: Vec<Vec<char>>) -> Seq<Seq<char>> {
    v@.map_values(|l: Vec<char>| l@)
}

/// The lines of `text`.
pub fn split_lines(text: &Vec<char>) -> (r: Vec<Vec<char>>)
    ensures
        lines_view(r) == lines_of(text@),
{
    let mut done: Vec<Vec<char>> = Vec::new();
    let mut partial: Vec<char> = Vec::new();
    let mut i: usize = 0;
    while i < text.len()
        invariant
            i <= text@.len(),
            (lines_view(done), partial@) == line_scan(text@.subrange(0, i as int)),
        decreases text@.len() - i,
    {
        let c = text[i];
        assert(text@.subrange(0, i + 1).drop_last() =~= text@.subrange(0, i as int));
        if c == '\n' {
            if partial.len() > 0 && partial[partial.len() - 1] == '\r' {
                partial.pop();
            }
            let ghost before = lines_view(done);
            let line = partial;
            done.push(line);
            assert(lines_view(done) =~= before.push(line@));
            partial = Vec::new();
        } else {
            partial.push(c);
        }
        i = i + 1;
    }
    assert(text@.subrange(0, text@.len() as int) =~= text@);
    if partial.len() > 0 {
        let ghost before = lines_view(done);
        let line = partial;
        done.push(line);
        assert(lines_view(done) =~= before.push(line@));
    }
    done
}

} // verus!

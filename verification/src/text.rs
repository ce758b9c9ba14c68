use vstd::prelude::*;

verus! {

/// The Unicode white-space set that trimming removes, by code point:
/// the ASCII controls TAB through CR, space, NEL, NBSP, and the
/// fixed-width and line/paragraph separators.
pub open spec fn is_ws(c: char) -> bool {
    let u = c as u32;
    ||| u == 0x20
    ||| (0x09 <= u && u <= 0x0D)
    ||| u == 0x85
    ||| u == 0xA0
    ||| u == 0x1680
    ||| (0x2000 <= u && u <= 0x200A)
    ||| u == 0x2028
    ||| u == 0x2029
    ||| u == 0x202F
    ||| u == 0x205F
    ||| u == 0x3000
}

/// Decides `is_ws`.
pub fn ws_char(c: char) -> (r: bool)
    ensures
        r == is_ws(c),
{
    let u = c as u32;
    u == 0x20 || (0x09 <= u && u <= 0x0D) || u == 0x85 || u == 0xA0 || u == 0x1680 || (0x2000 <= u
        && u <= 0x200A) || u == 0x2028 || u == 0x2029 || u == 0x202F || u == 0x205F || u == 0x3000
}

/// Position of the first occurrence of `d` in `s` at or after `i`,
/// or -1 when there is none.
pub open spec fn find_char(s: Seq<char>, d: char, i: int) -> int
    decreases s.len() - i,
{
    if i < 0 || i >= s.len() {
        -1
    } else if s[i] == d {
        i
    } else {
        find_char(s, d, i + 1)
    }
}

/// A scan that saw no `d` before `p`, and `d` or the end at `p`,
/// has found the first occurrence.
proof fn lemma_find_char(s: Seq<char>, d: char, i: int, p: int)
    requires
        0 <= i <= p <= s.len(),
        forall|j: int| i <= j < p ==> s[j] != d,
        p == s.len() || s[p] == d,
    ensures
        find_char(s, d, i) == if p == s.len() {
            -1int
        } else {
            p
        },
    decreases p - i,
{
    if i < p {
        lemma_find_char(s, d, i + 1, p);
    }
}

/// Finds the first occurrence of `d` in `s` at or after `from`.
pub fn find_in(s: &[char], d: char, from: usize) -> (r: Option<usize>)
    requires
        from <= s@.len(),
    ensures
        match r {
            Some(p) => find_char(s@, d, from as int) == p && from <= p < s@.len(),
            None => find_char(s@, d, from as int) == -1,
        },
{
    let mut i: usize = from;
    while i < s.len()
        invariant
            from <= i <= s@.len(),
            forall|j: int| from <= j < i ==> s@[j] != d,
        decreases s@.len() - i,
    {
        if s[i] == d {
            proof {
                lemma_find_char(s@, d, from as int, i as int);
            }
            return Some(i);
        }
        i = i + 1;
    }
    proof {
        lemma_find_char(s@, d, from as int, s@.len() as int);
    }
    None
}

/// Full characterization of `find_char`: where it points, the character
/// there is `d` and nothing before it is; where it fails, no `d` remains.
broadcast proof fn lemma_find_char_props(s: Seq<char>, d: char, i: int)
    requires
        0 <= i,
    ensures
        #[trigger] find_char(s, d, i) == -1 ==> (forall|j: int| i <= j < s.len() ==> s[j] != d),
        find_char(s, d, i) != -1 ==> i <= find_char(s, d, i) < s.len() && s[find_char(s, d, i)]
            == d,
        find_char(s, d, i) != -1 ==> (forall|j: int| i <= j < find_char(s, d, i) ==> s[j] != d),
    decreases s.len() - i,
{
    if 0 <= i < s.len() && s[i] != d {
        lemma_find_char_props(s, d, i + 1);
    }
}

/// The fields of `s` split at every comma: one more field than there are
/// commas, in order, each without its delimiters.
pub open spec fn spec_fields(s: Seq<char>) -> Seq<Seq<char>>
    decreases s.len(),
    via spec_fields_dec
{
    let p = find_char(s, ',', 0);
    if p < 0 {
        seq![s]
    } else {
        seq![s.subrange(0, p)] + spec_fields(s.subrange(p + 1, s.len() as int))
    }
}

#[via_fn]
proof fn spec_fields_dec(s: Seq<char>) {
    lemma_find_char_props(s, ',', 0);
}

/// A line with a trailing carriage return loses it; any other line is kept
/// whole.
pub open spec fn strip_cr(line: Seq<char>) -> Seq<char> {
    if line.len() > 0 && line[line.len() - 1] == '\r' {
        line.drop_last()
    } else {
        line
    }
}

/// The lines of `s`: split at every line feed, a carriage return directly
/// before one is dropped, and a final line terminator is optional.
pub open spec fn spec_lines(s: Seq<char>) -> Seq<Seq<char>>
    decreases s.len(),
    via spec_lines_dec
{
    if s.len() == 0 {
        Seq::empty()
    } else {
        let p = find_char(s, '\n', 0);
        if p < 0 {
            seq![s]
        } else {
            seq![strip_cr(s.subrange(0, p))] + spec_lines(s.subrange(p + 1, s.len() as int))
        }
    }
}

#[via_fn]
proof fn spec_lines_dec(s: Seq<char>) {
    lemma_find_char_props(s, '\n', 0);
}

/// End of the run of white space that starts at `i`.
pub open spec fn ws_prefix_end(s: Seq<char>, i: int) -> int
    decreases s.len() - i,
{
    if 0 <= i < s.len() && is_ws(s[i]) {
        ws_prefix_end(s, i + 1)
    } else {
        i
    }
}

/// Start of the run of white space that ends just before `j`.
pub open spec fn ws_suffix_start(s: Seq<char>, j: int) -> int
    decreases j,
{
    if 0 < j <= s.len() && is_ws(s[j - 1]) {
        ws_suffix_start(s, j - 1)
    } else {
        j
    }
}

/// `s` with leading and trailing white space removed.
pub open spec fn spec_trim(s: Seq<char>) -> Seq<char> {
    let a = ws_prefix_end(s, 0);
    let b = ws_suffix_start(s, s.len() as int);
    if a <= b {
        s.subrange(a, b)
    } else {
        Seq::empty()
    }
}

proof fn lemma_ws_prefix(s: Seq<char>, i: int, k: int)
    requires
        0 <= i <= k <= s.len(),
        forall|j: int| i <= j < k ==> is_ws(s[j]),
        k == s.len() || !is_ws(s[k]),
    ensures
        ws_prefix_end(s, i) == k,
    decreases k - i,
{
    if i < k {
        lemma_ws_prefix(s, i + 1, k);
    }
}

proof fn lemma_ws_suffix(s: Seq<char>, j: int, k: int)
    requires
        0 <= k <= j <= s.len(),
        forall|m: int| k <= m < j ==> is_ws(s[m]),
        k == 0 || !is_ws(s[k - 1]),
    ensures
        ws_suffix_start(s, j) == k,
    decreases j - k,
{
    if k < j {
        lemma_ws_suffix(s, j - 1, k);
    }
}

/// Bounds of `s` with surrounding white space removed: the trimmed text is
/// `s` between the two returned positions.
pub fn trim_bounds(s: &[char]) -> (r: (usize, usize))
    ensures
        r.0 <= r.1 <= s@.len(),
        spec_trim(s@) == s@.subrange(r.0 as int, r.1 as int),
{
    let n: usize = s.len();
    let mut a: usize = 0;
    while a < n && ws_char(s[a])
        invariant
            0 <= a <= n == s@.len(),
            forall|j: int| 0 <= j < a ==> is_ws(s@[j]),
        decreases n - a,
    {
        a = a + 1;
    }
    proof {
        lemma_ws_prefix(s@, 0, a as int);
    }
    let mut b: usize = n;
    while b > a && ws_char(s[b - 1])
        invariant
            a <= b <= n == s@.len(),
            forall|m: int| b <= m < n ==> is_ws(s@[m]),
        decreases b,
    {
        b = b - 1;
    }
    if b == a {
        // the whole text is white space: both scans met, the trim is empty
        proof {
            lemma_ws_suffix(s@, n as int, 0);
            assert(ws_prefix_end(s@, 0) == a as int);
            assert(spec_trim(s@) =~= s@.subrange(a as int, a as int));
        }
        (a, a)
    } else {
        proof {
            lemma_ws_suffix(s@, n as int, b as int);
        }
        (a, b)
    }
}

/// The characters of `s`, in order, as a vector.
pub fn str_chars(s: &str) -> (v: Vec<char>)
    ensures
        v@ == s@,
{
    let mut v: Vec<char> = Vec::new();
    for c in it: s.chars()
        invariant
            it.seq() == s@,
            v@ == it.seq().subrange(0, it.index() as int),
    {
        v.push(c);
    }
    proof {
        assert(v@ =~= s@);
    }
    v
}

/// Relies on `String`'s `FromIterator` through `Iterator::collect`: the
/// string that holds exactly the given characters, in order.
#[verifier::external_body]
pub(crate) fn chars_to_string(v: &[char]) -> (s: String)
    ensures
        s@ == v@,
{
    v.iter().collect()
}

} // verus!

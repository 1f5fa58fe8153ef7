use vstd::prelude::*;

verus! {

/// Whether `c` carries the Unicode `White_Space` property.
pub open spec fn is_space(c: char) -> bool {
    let n = c as u32;
    ||| 0x09 <= n <= 0x0D
    ||| n == 0x20
    ||| n == 0x85
    ||| n == 0xA0
    ||| n == 0x1680
    ||| 0x2000 <= n <= 0x200A
    ||| n == 0x2028
    ||| n == 0x2029
    ||| n == 0x202F
    ||| n == 0x205F
    ||| n == 0x3000
}

/// The first index in `[i, end)` that holds a non-space character, or `end`.
pub open spec fn skip_spaces(s: Seq<char>, i: int, end: int) -> int
    decreases end - i,
{
    if 0 <= i < end <= s.len() && is_space(s[i]) {
        skip_spaces(s, i + 1, end)
    } else {
        i
    }
}

/// The first index in `[i, end)` that holds a space character, or `end`.
pub open spec fn skip_word(s: Seq<char>, i: int, end: int) -> int
    decreases end - i,
{
    if 0 <= i < end <= s.len() && !is_space(s[i]) {
        skip_word(s, i + 1, end)
    } else {
        i
    }
}

/// The least `e` in `[start, end]` such that `[e, end)` holds only spaces.
pub open spec fn trim_end(s: Seq<char>, start: int, end: int) -> int
    decreases end - start,
{
    if 0 <= start < end <= s.len() && is_space(s[end - 1]) {
        trim_end(s, start, end - 1)
    } else {
        end
    }
}

/// The characters of `s` in `[from, to)` without leading and trailing spaces.
pub open spec fn trimmed(s: Seq<char>, from: int, to: int) -> Seq<char> {
    let a = skip_spaces(s, from, to);
    s.subrange(a, trim_end(s, a, to))
}

/// `skip_spaces` stays inside the range, passes only spaces and stops at a
/// non-space character or at the end of the range.
pub proof fn lemma_skip_spaces(s: Seq<char>, i: int, end: int)
    requires
        0 <= i <= end <= s.len(),
    ensures
        i <= skip_spaces(s, i, end) <= end,
        forall|k: int| i <= k < skip_spaces(s, i, end) ==> is_space(#[trigger] s[k]),
        skip_spaces(s, i, end) < end ==> !is_space(s[skip_spaces(s, i, end)]),
    decreases end - i,
{
    if i < end && is_space(s[i]) {
        lemma_skip_spaces(s, i + 1, end);
    }
}

/// `skip_word` stays inside the range, passes only non-space characters and
/// stops at a space or at the end of the range.
pub proof fn lemma_skip_word(s: Seq<char>, i: int, end: int)
    requires
        0 <= i <= end <= s.len(),
    ensures
        i <= skip_word(s, i, end) <= end,
        forall|k: int| i <= k < skip_word(s, i, end) ==> !is_space(#[trigger] s[k]),
        skip_word(s, i, end) < end ==> is_space(s[skip_word(s, i, end)]),
    decreases end - i,
{
    if i < end && !is_space(s[i]) {
        lemma_skip_word(s, i + 1, end);
    }
}

/// `trim_end` stays inside the range, drops only spaces and stops behind a
/// non-space character or at the start of the range.
pub proof fn lemma_trim_end(s: Seq<char>, start: int, end: int)
    requires
        0 <= start <= end <= s.len(),
    ensures
        start <= trim_end(s, start, end) <= end,
        forall|k: int| trim_end(s, start, end) <= k < end ==> is_space(#[trigger] s[k]),
        start < trim_end(s, start, end) ==> !is_space(s[trim_end(s, start, end) - 1]),
    decreases end - start,
{
    if start < end && is_space(s[end - 1]) {
        lemma_trim_end(s, start, end - 1);
    }
}

/// What `trimmed` gives is a stretch of the range that begins and ends
/// with a non-space character, or is empty, and only spaces of the range
/// lie outside it.
pub proof fn lemma_trimmed(s: Seq<char>, from: int, to: int)
    requires
        0 <= from <= to <= s.len(),
    ensures
        ({
            let a = skip_spaces(s, from, to);
            let b = trim_end(s, a, to);
            &&& from <= a <= b <= to
            &&& trimmed(s, from, to) == s.subrange(a, b)
            &&& forall|k: int| from <= k < a || b <= k < to ==> is_space(#[trigger] s[k])
            &&& a < b ==> !is_space(s[a]) && !is_space(s[b - 1])
        }),
{
    lemma_skip_spaces(s, from, to);
    lemma_trim_end(s, skip_spaces(s, from, to), to);
}

/// Tells whether `c` is white space.
pub fn is_whitespace(c: char) -> (r: bool)
    ensures
        r == is_space(c),
{
    let n: u32 = c as u32;
    (0x09 <= n && n <= 0x0D) || n == 0x20 || n == 0x85 || n == 0xA0 || n == 0x1680 || (0x2000 <= n
        && n <= 0x200A) || n == 0x2028 || n == 0x2029 || n == 0x202F || n == 0x205F || n == 0x3000
}

/// The characters of `text`, in order.
pub fn chars_of(text: &str) -> (chars: Vec<char>)
    ensures
        chars@ == text@,
{
    let mut chars: Vec<char> = Vec::new();
    for c in it: text.chars()
        invariant
            chars@ == it.history(),
    {
        chars.push(c);
    }
    chars
}

/// Scans `chars` from `i` for the first non-space character below `end`.
pub fn find_non_space(chars: &Vec<char>, i: usize, end: usize) -> (j: usize)
    requires
        i <= end <= chars.len(),
    ensures
        j == skip_spaces(chars@, i as int, end as int),
        i <= j <= end,
        forall|k: int| i <= k < j ==> is_space(#[trigger] chars@[k]),
        j < end ==> !is_space(chars@[j as int]),
{
    proof {
        lemma_skip_spaces(chars@, i as int, end as int);
    }
    let mut j: usize = i;
    while j < end && is_whitespace(chars[j])
        invariant
            i <= j <= end <= chars.len(),
            skip_spaces(chars@, i as int, end as int) == skip_spaces(chars@, j as int, end as int),
        decreases end - j,
    {
        j += 1;
    }
    j
}

/// Scans `chars` from `i` for the first space character below `end`.
pub fn find_space(chars: &Vec<char>, i: usize, end: usize) -> (j: usize)
    requires
        i <= end <= chars.len(),
    ensures
        j == skip_word(chars@, i as int, end as int),
        i <= j <= end,
        forall|k: int| i <= k < j ==> !is_space(#[trigger] chars@[k]),
        j < end ==> is_space(chars@[j as int]),
{
    proof {
        lemma_skip_word(chars@, i as int, end as int);
    }
    let mut j: usize = i;
    while j < end && !is_whitespace(chars[j])
        invariant
            i <= j <= end <= chars.len(),
            skip_word(chars@, i as int, end as int) == skip_word(chars@, j as int, end as int),
        decreases end - j,
    {
        j += 1;
    }
    j
}

/// Scans `chars` backwards from `end` for the end of the last non-space
/// character at or above `start`.
pub fn find_trim_end(chars: &Vec<char>, start: usize, end: usize) -> (e: usize)
    requires
        start <= end <= chars.len(),
    ensures
        e == trim_end(chars@, start as int, end as int),
        start <= e <= end,
        forall|k: int| e <= k < end ==> is_space(#[trigger] chars@[k]),
        start < e ==> !is_space(chars@[e - 1]),
{
    proof {
        lemma_trim_end(chars@, start as int, end as int);
    }
    let mut e: usize = end;
    while start < e && is_whitespace(chars[e - 1])
        invariant
            start <= e <= end <= chars.len(),
            trim_end(chars@, start as int, end as int) == trim_end(chars@, start as int, e as int),
        decreases e - start,
    {
        e -= 1;
    }
    e
}

} // verus!

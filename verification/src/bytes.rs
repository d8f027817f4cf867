//! Byte-level searching over text, with the mathematical meaning of each search.
use vstd::prelude::*;

verus! {

pub const TAB: u8 = 0x09;
pub const NEWLINE: u8 = 0x0a;
pub const CARRIAGE_RETURN: u8 = 0x0d;
pub const SPACE: u8 = 0x20;
pub const BANG: u8 = 0x21;
pub const HASH: u8 = 0x23;
pub const DOLLAR: u8 = 0x24;
pub const LPAREN: u8 = 0x28;
pub const RPAREN: u8 = 0x29;
pub const STAR: u8 = 0x2a;
pub const PLUS: u8 = 0x2b;
pub const DASH: u8 = 0x2d;
pub const DOT: u8 = 0x2e;
pub const SLASH: u8 = 0x2f;
pub const COLON: u8 = 0x3a;
pub const LESS: u8 = 0x3c;
pub const EQUALS: u8 = 0x3d;
pub const GREATER: u8 = 0x3e;
pub const LBRACKET: u8 = 0x5b;
pub const BACKSLASH: u8 = 0x5c;
pub const RBRACKET: u8 = 0x5d;
pub const CARET: u8 = 0x5e;
pub const UNDERSCORE: u8 = 0x5f;
pub const BACKTICK: u8 = 0x60;
pub const PIPE: u8 = 0x7c;
pub const TILDE: u8 = 0x7e;

/// The bytes `a`, `b` stand at positions `i`, `i + 1` of `s`.
pub open spec fn pair_at(s: Seq<u8>, i: int, a: u8, b: u8) -> bool {
    0 <= i && i + 1 < s.len() && s[i] == a && s[i + 1] == b
}

/// Three copies of `c` stand at positions `i .. i + 3` of `s`.
pub open spec fn triple_at(s: Seq<u8>, i: int, c: u8) -> bool {
    0 <= i && i + 2 < s.len() && s[i] == c && s[i + 1] == c && s[i + 2] == c
}

/// Some position in `lo .. hi` of `s` holds `c`.
pub open spec fn byte_in_range(s: Seq<u8>, c: u8, lo: int, hi: int) -> bool {
    exists|i: int| lo <= i < hi && 0 <= i < s.len() && s[i] == c
}

/// How many copies of `c` stand in a row from position `i` of `s`.
pub open spec fn run_len(s: Seq<u8>, i: int, c: u8) -> nat
    decreases s.len() - i,
{
    if i < 0 || i >= s.len() || s[i] != c {
        0
    } else {
        1 + run_len(s, i + 1, c)
    }
}

/// The number of leading spaces of a line, counted up to three.
pub open spec fn indent(s: Seq<u8>) -> int {
    if run_len(s, 0, SPACE) < 3 {
        run_len(s, 0, SPACE) as int
    } else {
        3
    }
}

/// The first position at or after `from` that holds `c`, or the length of `s`.
pub open spec fn find_byte_from(s: Seq<u8>, c: u8, from: int) -> int
    decreases s.len() - from,
{
    if from < 0 || from >= s.len() {
        s.len() as int
    } else if s[from] == c {
        from
    } else {
        find_byte_from(s, c, from + 1)
    }
}

/// The last position below `k` that holds `c`.
pub open spec fn rfind_byte_below(s: Seq<u8>, c: u8, k: int) -> Option<int>
    decreases k,
{
    if k <= 0 || k > s.len() {
        None
    } else if s[k - 1] == c {
        Some(k - 1)
    } else {
        rfind_byte_below(s, c, k - 1)
    }
}

/// The last position of `s` that holds `c`.
pub open spec fn rfind_byte(s: Seq<u8>, c: u8) -> Option<int> {
    rfind_byte_below(s, c, s.len() as int)
}

/// The last position below `k` at which the pair `a`, `b` starts.
pub open spec fn rfind_pair_below(s: Seq<u8>, a: u8, b: u8, k: int) -> Option<int>
    decreases k,
{
    if k <= 0 {
        None
    } else if pair_at(s, k - 1, a, b) {
        Some(k - 1)
    } else {
        rfind_pair_below(s, a, b, k - 1)
    }
}

/// The last position of `s` at which the pair `a`, `b` starts.
pub open spec fn rfind_pair(s: Seq<u8>, a: u8, b: u8) -> Option<int> {
    rfind_pair_below(s, a, b, s.len() as int)
}

/// The first position at or after `from` at which the pair `a`, `b` starts.
pub open spec fn find_pair_from(s: Seq<u8>, a: u8, b: u8, from: int) -> Option<int>
    decreases s.len() - from,
{
    if from < 0 || from + 1 >= s.len() {
        None
    } else if pair_at(s, from, a, b) {
        Some(from)
    } else {
        find_pair_from(s, a, b, from + 1)
    }
}

/// The last position below `k` at which three copies of `c` start.
pub open spec fn rfind_triple_below(s: Seq<u8>, c: u8, k: int) -> Option<int>
    decreases k,
{
    if k <= 0 {
        None
    } else if triple_at(s, k - 1, c) {
        Some(k - 1)
    } else {
        rfind_triple_below(s, c, k - 1)
    }
}

/// The last position of `s` at which three copies of `c` start.
pub open spec fn rfind_triple(s: Seq<u8>, c: u8) -> Option<int> {
    rfind_triple_below(s, c, s.len() as int)
}

/// How many occurrences of the pair `a`, `b` a left-to-right scan from `from`
/// finds, where a found pair is stepped over whole.
pub open spec fn count_pairs_from(s: Seq<u8>, a: u8, b: u8, from: int) -> nat
    decreases s.len() - from,
{
    if from < 0 || from + 1 >= s.len() {
        0
    } else if pair_at(s, from, a, b) {
        1 + count_pairs_from(s, a, b, from + 2)
    } else {
        count_pairs_from(s, a, b, from + 1)
    }
}

/// How many non-overlapping occurrences of the pair `a`, `b` the text holds.
pub open spec fn count_pairs(s: Seq<u8>, a: u8, b: u8) -> nat {
    count_pairs_from(s, a, b, 0)
}

/// What `rfind_pair` finds is the last occurrence.
pub proof fn lemma_rfind_pair_below(s: Seq<u8>, a: u8, b: u8, k: int)
    ensures
        match rfind_pair_below(s, a, b, k) {
            Some(i) => i < k && pair_at(s, i, a, b) && forall|j: int|
                i < j < k ==> !pair_at(s, j, a, b),
            None => forall|j: int| j < k ==> !pair_at(s, j, a, b),
        },
    decreases k,
{
    if k > 0 && !pair_at(s, k - 1, a, b) {
        lemma_rfind_pair_below(s, a, b, k - 1);
    }
}

/// What `rfind_byte` finds is the last occurrence.
pub proof fn lemma_rfind_byte_below(s: Seq<u8>, c: u8, k: int)
    requires
        k <= s.len(),
    ensures
        match rfind_byte_below(s, c, k) {
            Some(i) => 0 <= i < k && s[i] == c && forall|j: int| i < j < k ==> s[j] != c,
            None => forall|j: int| 0 <= j < k ==> s[j] != c,
        },
    decreases k,
{
    if k > 0 && s[k - 1] != c {
        lemma_rfind_byte_below(s, c, k - 1);
    }
}

/// What `find_byte_from` finds is the first occurrence.
pub proof fn lemma_find_byte_from(s: Seq<u8>, c: u8, from: int)
    requires
        0 <= from <= s.len(),
    ensures
        from <= find_byte_from(s, c, from) <= s.len(),
        find_byte_from(s, c, from) < s.len() ==> s[find_byte_from(s, c, from)] == c,
        forall|j: int| from <= j < find_byte_from(s, c, from) ==> s[j] != c,
    decreases s.len() - from,
{
    if from < s.len() && s[from] != c {
        lemma_find_byte_from(s, c, from + 1);
    }
}

/// A run ends inside the text, holds its byte throughout, and does not go on.
pub proof fn lemma_run_len_bound(s: Seq<u8>, i: int, c: u8)
    requires
        0 <= i <= s.len(),
    ensures
        i + run_len(s, i, c) <= s.len(),
        forall|j: int| i <= j < i + run_len(s, i, c) ==> s[j] == c,
        i + run_len(s, i, c) < s.len() ==> s[i + run_len(s, i, c)] != c,
    decreases s.len() - i,
{
    if i < s.len() && s[i] == c {
        lemma_run_len_bound(s, i + 1, c);
    }
}

/// How many copies of `c` stand in a row from position `i`.
pub fn run_length(b: &[u8], i: usize, c: u8) -> (r: usize)
    requires
        i <= b.len(),
    ensures
        r as nat == run_len(b@, i as int, c),
        i + r <= b.len(),
{
    let mut j: usize = i;
    while j < b.len() && b[j] == c
        invariant
            i <= j <= b.len(),
            run_len(b@, i as int, c) == (j - i) + run_len(b@, j as int, c),
        decreases b.len() - j,
    {
        j += 1;
    }
    j - i
}

/// The number of leading spaces, counted up to three.
pub fn leading_indent(b: &[u8]) -> (r: usize)
    ensures
        r as int == indent(b@),
        r <= 3,
        r <= b.len(),
{
    let n = run_length(b, 0, SPACE);
    if n < 3 {
        n
    } else {
        3
    }
}

/// Whether the bytes `x`, `y` stand at positions `i`, `i + 1`.
pub fn has_pair_at(b: &[u8], i: usize, x: u8, y: u8) -> (r: bool)
    ensures
        r == pair_at(b@, i as int, x, y),
{
    i < b.len() && b.len() - i > 1 && b[i] == x && b[i + 1] == y
}

/// Whether three copies of `c` stand at positions `i .. i + 3`.
pub fn has_triple_at(b: &[u8], i: usize, c: u8) -> (r: bool)
    ensures
        r == triple_at(b@, i as int, c),
{
    i < b.len() && b.len() - i > 2 && b[i] == c && b[i + 1] == c && b[i + 2] == c
}

/// Whether some position in `lo .. hi` holds `c`.
pub fn has_byte_in_range(b: &[u8], c: u8, lo: usize, hi: usize) -> (r: bool)
    ensures
        r == byte_in_range(b@, c, lo as int, hi as int),
{
    let mut i: usize = lo;
    while i < hi && i < b.len()
        invariant
            lo <= i,
            forall|j: int| lo <= j < i && j < b.len() ==> b@[j] != c,
        decreases b.len() - i,
    {
        if b[i] == c {
            return true;
        }
        i += 1;
    }
    false
}

/// The first position at or after `from` that holds `c`, or the length.
pub fn first_byte_from(b: &[u8], c: u8, from: usize) -> (r: usize)
    requires
        from <= b.len(),
    ensures
        r as int == find_byte_from(b@, c, from as int),
        from <= r <= b.len(),
{
    let mut i: usize = from;
    while i < b.len()
        invariant
            from <= i <= b.len(),
            find_byte_from(b@, c, from as int) == find_byte_from(b@, c, i as int),
        decreases b.len() - i,
    {
        if b[i] == c {
            return i;
        }
        i += 1;
    }
    i
}

/// The last position below `below` that holds `c`.
pub fn last_byte_below(b: &[u8], c: u8, below: usize) -> (r: Option<usize>)
    requires
        below <= b.len(),
    ensures
        match r {
            Some(i) => rfind_byte_below(b@, c, below as int) == Some(i as int),
            None => rfind_byte_below(b@, c, below as int) is None,
        },
{
    let mut k: usize = below;
    while k > 0
        invariant
            k <= below <= b.len(),
            rfind_byte_below(b@, c, below as int) == rfind_byte_below(b@, c, k as int),
        decreases k,
    {
        if b[k - 1] == c {
            return Some(k - 1);
        }
        k -= 1;
    }
    None
}

/// The last position at which the pair `x`, `y` starts.
pub fn last_pair(b: &[u8], x: u8, y: u8) -> (r: Option<usize>)
    ensures
        match r {
            Some(i) => rfind_pair(b@, x, y) == Some(i as int),
            None => rfind_pair(b@, x, y) is None,
        },
{
    let mut k: usize = b.len();
    while k > 0
        invariant
            k <= b.len(),
            rfind_pair(b@, x, y) == rfind_pair_below(b@, x, y, k as int),
        decreases k,
    {
        if has_pair_at(b, k - 1, x, y) {
            return Some(k - 1);
        }
        k -= 1;
    }
    None
}

/// The first position at which the pair `x`, `y` starts.
pub fn first_pair(b: &[u8], x: u8, y: u8) -> (r: Option<usize>)
    ensures
        match r {
            Some(i) => find_pair_from(b@, x, y, 0) == Some(i as int),
            None => find_pair_from(b@, x, y, 0) is None,
        },
{
    let mut i: usize = 0;
    while i < b.len()
        invariant
            i <= b.len(),
            find_pair_from(b@, x, y, 0) == find_pair_from(b@, x, y, i as int),
        decreases b.len() - i,
    {
        if has_pair_at(b, i, x, y) {
            return Some(i);
        }
        i += 1;
    }
    None
}

/// The last position at which three copies of `c` start.
pub fn last_triple(b: &[u8], c: u8) -> (r: Option<usize>)
    ensures
        match r {
            Some(i) => rfind_triple(b@, c) == Some(i as int),
            None => rfind_triple(b@, c) is None,
        },
{
    let mut k: usize = b.len();
    while k > 0
        invariant
            k <= b.len(),
            rfind_triple(b@, c) == rfind_triple_below(b@, c, k as int),
        decreases k,
    {
        if has_triple_at(b, k - 1, c) {
            return Some(k - 1);
        }
        k -= 1;
    }
    None
}

/// How many non-overlapping occurrences of the pair `x`, `y` the text holds.
pub fn pair_count(b: &[u8], x: u8, y: u8) -> (r: usize)
    ensures
        r as nat == count_pairs(b@, x, y),
{
    let mut i: usize = 0;
    let mut count: usize = 0;
    while i < b.len()
        invariant
            i <= b.len(),
            count <= i,
            count + count_pairs_from(b@, x, y, i as int) == count_pairs(b@, x, y),
        decreases b.len() - i,
    {
        if has_pair_at(b, i, x, y) {
            count += 1;
            i += 2;
        } else {
            i += 1;
        }
    }
    count
}

/// Whether the two hold the same bytes.
pub fn equal_bytes(a: &[u8], b: &[u8]) -> (r: bool)
    ensures
        r == (a@ == b@),
{
    if a.len() != b.len() {
        return false;
    }
    let mut i: usize = 0;
    while i < a.len()
        invariant
            a@.len() == b@.len(),
            i <= a@.len(),
            forall|j: int| 0 <= j < i ==> a@[j] == b@[j],
        decreases a@.len() - i,
    {
        if a[i] != b[i] {
            return false;
        }
        i += 1;
    }
    assert(a@ =~= b@);
    true
}

/// From position `i` on, where the two agree before it, `a` comes before
/// `b`: at the first position where they differ `a` has the smaller byte, or
/// `a` ends and `b` goes on.
pub open spec fn comes_before_from(a: Seq<u8>, b: Seq<u8>, i: int) -> bool
    decreases a.len() - i,
{
    if i < 0 {
        false
    } else if i >= a.len() {
        i < b.len()
    } else if i >= b.len() {
        false
    } else if a[i] != b[i] {
        a[i] < b[i]
    } else {
        comes_before_from(a, b, i + 1)
    }
}

/// `a` comes before `b` in the order of byte strings, which is the order of
/// `str` and `String`.
pub open spec fn comes_before(a: Seq<u8>, b: Seq<u8>) -> bool {
    comes_before_from(a, b, 0)
}

/// Of two byte strings one comes before the other, or they are the same.
pub proof fn lemma_order_total(a: Seq<u8>, b: Seq<u8>, i: int)
    requires
        0 <= i <= a.len(),
        i <= b.len(),
        forall|j: int| 0 <= j < i ==> a[j] == b[j],
    ensures
        comes_before_from(a, b, i) || comes_before_from(b, a, i) || a == b,
    decreases a.len() - i,
{
    if i >= a.len() {
        if i >= b.len() {
            assert(a =~= b);
        }
    } else if i < b.len() && a[i] == b[i] {
        lemma_order_total(a, b, i + 1);
    }
}

/// What comes before something that comes before a third comes before the third.
pub proof fn lemma_order_transitive(a: Seq<u8>, b: Seq<u8>, c: Seq<u8>, i: int)
    requires
        comes_before_from(a, b, i),
        comes_before_from(b, c, i),
    ensures
        comes_before_from(a, c, i),
    decreases a.len() - i,
{
    if 0 <= i < a.len() && i < b.len() && i < c.len() && a[i] == b[i] && b[i] == c[i] {
        lemma_order_transitive(a, b, c, i + 1);
    }
}

/// Whether `a` comes before `b` in the order of byte strings.
pub fn bytes_before(a: &[u8], b: &[u8]) -> (r: bool)
    ensures
        r == comes_before(a@, b@),
{
    let mut i: usize = 0;
    while i < a.len() && i < b.len()
        invariant
            i <= a@.len(),
            i <= b@.len(),
            comes_before(a@, b@) == comes_before_from(a@, b@, i as int),
        decreases a@.len() - i,
    {
        if a[i] != b[i] {
            return a[i] < b[i];
        }
        i += 1;
    }
    i < b.len()
}

} // verus!

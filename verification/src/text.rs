//! Sequences of characters: the searching, splitting and joining that paths,
//! links and document bodies are spelled with.

use vstd::prelude::*;

verus! {

/// `String::push` appends one character at the end of the string.
pub assume_specification[ String::push ](s: &mut String, c: char)
    ensures
        final(s)@ == old(s)@.push(c),
;

/// The characters of `s`, in order.
pub fn chars_of(s: &str) -> (r: Vec<char>)
    ensures
        r@ == s@,
{
    let mut v: Vec<char> = Vec::new();
    for c in it: s.chars()
        invariant
            v.len() == it.index(),
            forall|i: int| 0 <= i < v.len() ==> v@[i] == it.seq()[i],
    {
        v.push(c);
    }
    v
}

/// How many bytes come before the character at `i`.
pub open spec fn byte_at(s: Seq<char>, i: int) -> int {
    vstd::utf8::encode_utf8(s.take(i)).len() as int
}

/// How many bytes come before the character at `i`.
pub fn bytes_before(v: &[char], i: usize) -> (r: usize)
    requires
        i <= v@.len(),
    ensures
        r == byte_at(v@, i as int),
{
    let head = text_of(v, 0, i);
    proof {
        assert(v@.subrange(0, i as int) =~= v@.take(i as int));
    }
    head.as_str().as_bytes().len()
}

/// The text of `v[from..to]`.
pub fn text_of(v: &[char], from: usize, to: usize) -> (r: String)
    requires
        from <= to <= v@.len(),
    ensures
        r@ == v@.subrange(from as int, to as int),
{
    let mut s = String::new();
    let mut i: usize = from;
    while i < to
        invariant
            from <= i <= to <= v@.len(),
            s@ == v@.subrange(from as int, i as int),
        decreases to - i,
    {
        s.push(v[i]);
        i = i + 1;
    }
    s
}

/// Whether `a` and `b` are the same text.
pub fn same_text(a: &str, b: &str) -> (r: bool)
    ensures
        r == (a@ == b@),
{
    a.to_owned() == b.to_owned()
}

/// Whether `pat` stands in `s` at position `i`.
pub open spec fn has_at(s: Seq<char>, pat: Seq<char>, i: int) -> bool {
    0 <= i && i + pat.len() <= s.len() && s.subrange(i, i + pat.len()) == pat
}

/// The first position at or after `i` where `pat` stands in `s`.
pub open spec fn find_from(s: Seq<char>, pat: Seq<char>, i: int) -> Option<int>
    decreases s.len() - i + 1,
{
    if i < 0 || i + pat.len() > s.len() {
        None
    } else if has_at(s, pat, i) {
        Some(i)
    } else {
        find_from(s, pat, i + 1)
    }
}

/// The first position at or after `i` where `s` holds `c`.
pub open spec fn find_char(s: Seq<char>, c: char, i: int) -> Option<int>
    decreases s.len() - i,
{
    if i < 0 || i >= s.len() {
        None
    } else if s[i] == c {
        Some(i)
    } else {
        find_char(s, c, i + 1)
    }
}

/// Whether `s` begins with `pat`.
pub open spec fn begins(s: Seq<char>, pat: Seq<char>) -> bool {
    has_at(s, pat, 0)
}

/// Whether `s` ends with `pat`.
pub open spec fn ends(s: Seq<char>, pat: Seq<char>) -> bool {
    has_at(s, pat, s.len() - pat.len())
}

/// `s` with its first occurrence of `pat` replaced by `with`.
pub open spec fn replace_first(s: Seq<char>, pat: Seq<char>, with: Seq<char>) -> Seq<char> {
    match find_from(s, pat, 0) {
        Some(i) => s.take(i) + with + s.skip(i + pat.len()),
        None => s,
    }
}

/// A character with the Unicode `White_Space` property.
pub open spec fn is_space(c: char) -> bool {
    let u = c as u32;
    ||| 0x09 <= u <= 0x0d
    ||| u == 0x20
    ||| u == 0x85
    ||| u == 0xa0
    ||| u == 0x1680
    ||| 0x2000 <= u <= 0x200a
    ||| u == 0x2028
    ||| u == 0x2029
    ||| u == 0x202f
    ||| u == 0x205f
    ||| u == 0x3000
}

/// `s` without its leading white space.
pub open spec fn trim_start(s: Seq<char>) -> Seq<char>
    decreases s.len(),
{
    if s.len() > 0 && is_space(s[0]) {
        trim_start(s.drop_first())
    } else {
        s
    }
}

/// `s` without its trailing white space.
pub open spec fn trim_end(s: Seq<char>) -> Seq<char>
    decreases s.len(),
{
    if s.len() > 0 && is_space(s.last()) {
        trim_end(s.drop_last())
    } else {
        s
    }
}

/// `s` without white space at either end.
pub open spec fn trimmed(s: Seq<char>) -> Seq<char> {
    trim_end(trim_start(s))
}

/// The runs of `s` between occurrences of `sep`; one more than there are
/// separators.
pub open spec fn split(s: Seq<char>, sep: char) -> Seq<Seq<char>>
    decreases s.len(),
{
    if s.len() == 0 {
        seq![Seq::empty()]
    } else {
        let runs = split(s.drop_last(), sep);
        if s.last() == sep {
            runs.push(Seq::empty())
        } else {
            runs.drop_last().push(runs.last().push(s.last()))
        }
    }
}

/// The runs written one after another with `sep` between them.
pub open spec fn joined(runs: Seq<Seq<char>>, sep: char) -> Seq<char>
    decreases runs.len(),
{
    if runs.len() == 0 {
        Seq::empty()
    } else if runs.len() == 1 {
        runs[0]
    } else {
        joined(runs.drop_last(), sep).push(sep) + runs.last()
    }
}

/// The decimal spelling of `n`.
pub open spec fn decimal(n: nat) -> Seq<char>
    decreases n,
{
    if n < 10 {
        seq![digit(n)]
    } else {
        decimal(n / 10).push(digit(n % 10))
    }
}

/// The decimal digit for `n`, which is below ten.
pub open spec fn digit(n: nat) -> char {
    ((48 + n) as u8) as char
}

pub proof fn lemma_split_nonempty(s: Seq<char>, sep: char)
    ensures
        split(s, sep).len() > 0,
    decreases s.len(),
{
    if s.len() > 0 {
        lemma_split_nonempty(s.drop_last(), sep);
    }
}

/// Text without the separator is a single run.
pub proof fn lemma_split_plain(s: Seq<char>, sep: char)
    requires
        !s.contains(sep),
    ensures
        split(s, sep) == seq![s],
    decreases s.len(),
{
    if s.len() > 0 {
        assert(s.last() != sep) by {
            assert(s.contains(s.last()));
        }
        assert forall|c: char| s.drop_last().contains(c) implies s.contains(c) by {
            let i = choose|i: int| 0 <= i < s.drop_last().len() && s.drop_last()[i] == c;
            assert(s[i] == c);
        }
        lemma_split_plain(s.drop_last(), sep);
        assert(s.drop_last().push(s.last()) =~= s);
    } else {
        assert(s =~= Seq::empty());
    }
}

/// A separator starts a new run.
pub proof fn lemma_split_append(a: Seq<char>, b: Seq<char>, sep: char)
    requires
        !b.contains(sep),
    ensures
        split(a.push(sep) + b, sep) == split(a, sep).push(b),
    decreases b.len(),
{
    let whole = a.push(sep) + b;
    if b.len() == 0 {
        assert(whole =~= a.push(sep));
        assert(a.push(sep).drop_last() =~= a);
        assert(b =~= Seq::empty());
    } else {
        assert(b.last() != sep) by {
            assert(b.contains(b.last()));
        }
        assert forall|c: char| b.drop_last().contains(c) implies b.contains(c) by {
            let i = choose|i: int| 0 <= i < b.drop_last().len() && b.drop_last()[i] == c;
            assert(b[i] == c);
        }
        lemma_split_append(a, b.drop_last(), sep);
        assert(whole.drop_last() =~= a.push(sep) + b.drop_last());
        assert(whole.last() == b.last());
        assert(b.drop_last().push(b.last()) =~= b);
        assert(split(a, sep).push(b.drop_last()).drop_last() =~= split(a, sep));
    }
}

/// Splitting gives back the runs that were joined.
pub proof fn lemma_split_joined(runs: Seq<Seq<char>>, sep: char)
    requires
        runs.len() > 0,
        forall|i: int| 0 <= i < runs.len() ==> !(#[trigger] runs[i]).contains(sep),
    ensures
        split(joined(runs, sep), sep) == runs,
    decreases runs.len(),
{
    if runs.len() == 1 {
        lemma_split_plain(runs[0], sep);
        assert(runs =~= seq![runs[0]]);
    } else {
        assert forall|i: int| 0 <= i < runs.drop_last().len() implies !(
        #[trigger] runs.drop_last()[i]).contains(sep) by {
            assert(runs.drop_last()[i] == runs[i]);
        }
        lemma_split_joined(runs.drop_last(), sep);
        assert(!runs[runs.len() - 1].contains(sep));
        lemma_split_append(joined(runs.drop_last(), sep), runs.last(), sep);
        assert(runs.drop_last().push(runs.last()) =~= runs);
    }
}

/// No run holds the separator.
pub proof fn lemma_split_runs(s: Seq<char>, sep: char)
    ensures
        forall|i: int| 0 <= i < split(s, sep).len() ==> !(#[trigger] split(s, sep)[i]).contains(sep),
    decreases s.len(),
{
    if s.len() > 0 {
        lemma_split_nonempty(s.drop_last(), sep);
        lemma_split_runs(s.drop_last(), sep);
        let runs = split(s.drop_last(), sep);
        let all = split(s, sep);
        assert forall|i: int| 0 <= i < all.len() implies !(#[trigger] all[i]).contains(sep) by {
            if s.last() == sep {
                if i < runs.len() {
                    assert(all[i] == runs[i]);
                }
            } else if i < runs.len() - 1 {
                assert(all[i] == runs[i]);
            } else {
                let last = runs.last().push(s.last());
                assert(all[i] == last);
                assert(!runs[runs.len() - 1].contains(sep));
                if last.contains(sep) {
                    let k = choose|k: int| 0 <= k < last.len() && last[k] == sep;
                    assert(runs.last()[k] == sep);
                }
            }
        }
    }
}

/// The runs of `s` between occurrences of `sep`.
pub fn split_text(s: &str, sep: char) -> (r: Vec<String>)
    ensures
        texts(r@) == split(s@, sep),
{
    let cs = chars_of(s);
    let mut out: Vec<String> = Vec::new();
    let mut run = String::new();
    let mut i: usize = 0;
    proof {
        assert(cs@.take(0) =~= Seq::empty());
        assert(texts(out@).push(run@) =~= split(cs@.take(0), sep));
    }
    while i < cs.len()
        invariant
            i <= cs@.len(),
            texts(out@).push(run@) == split(cs@.take(i as int), sep),
        decreases cs@.len() - i,
    {
        let c = cs[i];
        proof {
            let before = cs@.take(i as int);
            let after = cs@.take(i + 1);
            assert(after.drop_last() =~= before);
            assert(after.last() == c);
            assert(texts(out@).push(run@).drop_last() =~= texts(out@));
        }
        if c == sep {
            let ghost done = out@;
            out.push(run);
            proof {
                assert(texts(out@) =~= texts(done).push(run@));
            }
            run = String::new();
        } else {
            run.push(c);
        }
        i = i + 1;
    }
    proof {
        assert(cs@.take(i as int) =~= s@);
    }
    let ghost done = out@;
    out.push(run);
    proof {
        assert(texts(out@) =~= texts(done).push(run@));
    }
    out
}

/// The texts that a sequence of strings holds.
pub open spec fn texts(v: Seq<String>) -> Seq<Seq<char>> {
    v.map_values(|s: String| s@)
}

/// The runs written one after another with `sep` between them.
pub fn join_text(runs: &[String], sep: char) -> (r: String)
    ensures
        r@ == joined(texts(runs@), sep),
{
    if runs.len() == 0 {
        return String::new();
    }
    let mut s = runs[0].clone();
    let mut i: usize = 1;
    proof {
        assert(texts(runs@).take(1) =~= seq![runs@[0]@]);
    }
    while i < runs.len()
        invariant
            1 <= i <= runs@.len(),
            s@ == joined(texts(runs@).take(i as int), sep),
        decreases runs@.len() - i,
    {
        proof {
            let after = texts(runs@).take(i + 1);
            assert(after.drop_last() =~= texts(runs@).take(i as int));
            assert(after.last() == runs@[i as int]@);
        }
        s.push(sep);
        s.append(runs[i].as_str());
        i = i + 1;
    }
    proof {
        assert(texts(runs@).take(i as int) =~= texts(runs@));
    }
    s
}

/// Whether `pat` stands in `v` at position `i`.
pub fn stands_at(v: &[char], pat: &[char], i: usize) -> (r: bool)
    ensures
        r == has_at(v@, pat@, i as int),
{
    if i > v.len() || pat.len() > v.len() - i {
        return false;
    }
    let mut k: usize = 0;
    while k < pat.len()
        invariant
            k <= pat@.len(),
            i + pat.len() <= v.len(),
            forall|j: int| 0 <= j < k ==> v@[i + j] == pat@[j],
        decreases pat@.len() - k,
    {
        if v[i + k] != pat[k] {
            proof {
                assert(v@.subrange(i as int, i + pat@.len())[k as int] == v@[i + k]);
            }
            return false;
        }
        k = k + 1;
    }
    proof {
        assert(v@.subrange(i as int, i + pat@.len()) =~= pat@);
    }
    true
}

/// The first position at or after `from` where `pat` stands in `v`.
pub fn find_text(v: &[char], pat: &[char], from: usize) -> (r: Option<usize>)
    ensures
        r is Some <==> find_from(v@, pat@, from as int) is Some,
        r matches Some(i) ==> find_from(v@, pat@, from as int) == Some(i as int),
{
    let mut i: usize = from;
    while i <= v.len() && pat.len() <= v.len() - i
        invariant
            from <= i,
            find_from(v@, pat@, from as int) == find_from(v@, pat@, i as int),
        decreases v@.len() - i + 1,
    {
        if stands_at(v, pat, i) {
            return Some(i);
        }
        if i == v.len() {
            proof {
                assert(find_from(v@, pat@, i + 1) is None);
            }
            return None;
        }
        i = i + 1;
    }
    None
}

/// The first position at or after `from` where `v` holds `c`.
pub fn find_mark(v: &[char], c: char, from: usize) -> (r: Option<usize>)
    ensures
        r is Some <==> find_char(v@, c, from as int) is Some,
        r matches Some(i) ==> find_char(v@, c, from as int) == Some(i as int) && from <= i < v@.len()
            && v@[i as int] == c,
{
    let mut i: usize = from;
    while i < v.len()
        invariant
            from <= i,
            find_char(v@, c, from as int) == find_char(v@, c, i as int),
        decreases v@.len() - i,
    {
        if v[i] == c {
            return Some(i);
        }
        i = i + 1;
    }
    None
}

/// Whether `c` has the Unicode `White_Space` property.
pub fn is_white(c: char) -> (r: bool)
    ensures
        r == is_space(c),
{
    let u: u32 = c as u32;
    (0x09 <= u && u <= 0x0d) || u == 0x20 || u == 0x85 || u == 0xa0 || u == 0x1680 || (0x2000 <= u
        && u <= 0x200a) || u == 0x2028 || u == 0x2029 || u == 0x202f || u == 0x205f || u == 0x3000
}

/// The range of `v[from..to]` without white space at either end.
pub fn trim_range(v: &[char], from: usize, to: usize) -> (r: (usize, usize))
    requires
        from <= to <= v@.len(),
    ensures
        from <= r.0 <= r.1 <= to,
        v@.subrange(r.0 as int, r.1 as int) == trimmed(v@.subrange(from as int, to as int)),
{
    let mut a: usize = from;
    while a < to && is_white(v[a])
        invariant
            from <= a <= to <= v@.len(),
            trim_start(v@.subrange(from as int, to as int)) == trim_start(
                v@.subrange(a as int, to as int),
            ),
        decreases to - a,
    {
        proof {
            assert(v@.subrange(a as int, to as int).drop_first() =~= v@.subrange(
                a + 1,
                to as int,
            ));
        }
        a = a + 1;
    }
    let mut b: usize = to;
    while a < b && is_white(v[b - 1])
        invariant
            a <= b <= to <= v@.len(),
            trim_end(v@.subrange(a as int, to as int)) == trim_end(
                v@.subrange(a as int, b as int),
            ),
        decreases b,
    {
        proof {
            assert(v@.subrange(a as int, b as int).drop_last() =~= v@.subrange(
                a as int,
                b - 1,
            ));
        }
        b = b - 1;
    }
    (a, b)
}

/// The decimal spelling of `n`.
pub fn number_text(n: u64) -> (r: String)
    ensures
        r@ == decimal(n as nat),
    decreases n,
{
    let mut s = if n < 10 {
        String::new()
    } else {
        number_text(n / 10)
    };
    let d: u8 = (n % 10) as u8;
    s.push((48 + d) as char);
    s
}

/// Whether two byte strings are the same.
pub fn same_bytes(a: &[u8], b: &[u8]) -> (r: bool)
    ensures
        r == (a@ == b@),
{
    if a.len() != b.len() {
        return false;
    }
    let mut i: usize = 0;
    while i < a.len()
        invariant
            i <= a@.len(),
            a@.len() == b@.len(),
            forall|j: int| 0 <= j < i ==> a@[j] == b@[j],
        decreases a@.len() - i,
    {
        if a[i] != b[i] {
            return false;
        }
        i = i + 1;
    }
    proof {
        assert(a@ =~= b@);
    }
    true
}

proof fn lemma_encoded_add(a: Seq<char>, b: Seq<char>)
    ensures
        vstd::utf8::encode_utf8(a + b) == vstd::utf8::encode_utf8(a) + vstd::utf8::encode_utf8(b),
    decreases a.len(),
{
    if a.len() == 0 {
        assert(a + b =~= b);
        assert(vstd::utf8::encode_utf8(a) + vstd::utf8::encode_utf8(b)
            =~= vstd::utf8::encode_utf8(b));
    } else {
        lemma_encoded_add(a.drop_first(), b);
        assert((a + b).drop_first() =~= a.drop_first() + b);
        assert((a + b)[0] == a[0]);
        assert(vstd::utf8::encode_utf8(a + b) =~= vstd::utf8::encode_utf8(a)
            + vstd::utf8::encode_utf8(b));
    }
}

proof fn lemma_boundary_after(a: Seq<char>, b: Seq<char>)
    ensures
        vstd::utf8::is_char_boundary(
            vstd::utf8::encode_utf8(a + b),
            vstd::utf8::encode_utf8(a).len() as int,
        ),
    decreases a.len(),
{
    let all = vstd::utf8::encode_utf8(a + b);
    vstd::utf8::encode_utf8_valid_utf8(a + b);
    if a.len() > 0 {
        vstd::utf8::encode_utf8_first_scalar(a + b);
        assert((a + b)[0] == a[0]);
        assert((a + b).drop_first() =~= a.drop_first() + b);
        lemma_boundary_after(a.drop_first(), b);
        lemma_encoded_add(a, b);
        assert(vstd::utf8::pop_first_scalar(all) =~= vstd::utf8::encode_utf8(
            a.drop_first() + b,
        ));
    }
}

/// Characters of a text are read back from the bytes they take: both ends of those
/// are ends of characters, what comes between is the characters, and what comes
/// before and after is what did.
pub proof fn law_bytes_of_characters(s: Seq<char>, a: int, b: int)
    requires
        0 <= a <= b <= s.len(),
    ensures
        ({
            let bytes = vstd::utf8::encode_utf8(s);
            let (i, j) = (byte_at(s, a), byte_at(s, b));
            &&& 0 <= i <= j <= bytes.len()
            &&& vstd::utf8::is_char_boundary(bytes, i)
            &&& vstd::utf8::is_char_boundary(bytes, j)
            &&& bytes.subrange(i, j) == vstd::utf8::encode_utf8(s.subrange(a, b))
            &&& vstd::utf8::decode_utf8(bytes.take(i)) == s.take(a)
            &&& vstd::utf8::decode_utf8(bytes.skip(j)) == s.skip(b)
        }),
{
    let bytes = vstd::utf8::encode_utf8(s);
    let (i, j) = (byte_at(s, a), byte_at(s, b));
    let (x, y, z) = (s.take(a), s.subrange(a, b), s.skip(b));
    assert(s.take(b) =~= x + y);
    assert(s =~= x + (y + z));
    assert(s =~= (x + y) + z);
    lemma_encoded_add(x, y + z);
    lemma_encoded_add(y, z);
    lemma_encoded_add(x, y);
    lemma_encoded_add(x + y, z);
    lemma_boundary_after(x, y + z);
    lemma_boundary_after(x + y, z);
    assert(bytes.subrange(i, j) =~= vstd::utf8::encode_utf8(y));
    assert(bytes.take(i) =~= vstd::utf8::encode_utf8(x));
    assert(bytes.skip(j) =~= vstd::utf8::encode_utf8(z));
    vstd::utf8::encode_utf8_decode_utf8(x);
    vstd::utf8::encode_utf8_decode_utf8(z);
}

} // verus!

//! Text as sequences of characters: the operations the rest of the crate
//! states its contracts with, and their executable forms.

use vstd::prelude::*;
use vstd::string::*;

verus! {

/// Trusted: `String::push` appends the given character to the end of the
/// string and changes nothing else.
pub assume_specification[ String::push ](s: &mut String, c: char)
    ensures
        final(s)@ == old(s)@.push(c),
;

/// The text that `{:?}` gives for a string: its characters between double
/// quotes, with those escaped that the standard library escapes. Which
/// characters those are rests on Unicode tables, so the result is named and
/// not spelled out.
pub uninterp spec fn debug_text(s: Seq<char>) -> Seq<char>;

/// Trusted: `format!` with `{:?}` on a string gives the text named
/// [`debug_text`], and that text holds no line feed: one in the string is
/// escaped. Which other characters are escaped, and how, is left unsaid.
#[verifier::external_body]
pub(crate) fn quote(s: &str) -> (res: String)
    ensures
        res@ == debug_text(s@),
        !res@.contains('\n'),
{
    format!("{:?}", s)
}

/// The views of a list of strings.
pub open spec fn texts(v: Seq<String>) -> Seq<Seq<char>> {
    Seq::new(v.len(), |i: int| v[i]@)
}

/// The pieces of `s` between occurrences of `sep`: always one more than there
/// are occurrences.
pub open spec fn split<A>(s: Seq<A>, sep: A) -> Seq<Seq<A>>
    decreases s.len(),
{
    if s.len() == 0 {
        seq![Seq::<A>::empty()]
    } else {
        let before = split(s.drop_last(), sep);
        if s.last() == sep {
            before.push(Seq::<A>::empty())
        } else {
            before.drop_last().push(before.last().push(s.last()))
        }
    }
}

/// The parts in order, with `sep` between neighbours.
pub open spec fn join(parts: Seq<Seq<char>>, sep: Seq<char>) -> Seq<char>
    decreases parts.len(),
{
    if parts.len() == 0 {
        Seq::<char>::empty()
    } else if parts.len() == 1 {
        parts[0]
    } else {
        join(parts.drop_last(), sep) + sep + parts.last()
    }
}

/// `needle` stands in `hay` at position `at`.
pub open spec fn occurs_at(hay: Seq<char>, needle: Seq<char>, at: int) -> bool {
    &&& 0 <= at <= hay.len() - needle.len()
    &&& hay.subrange(at, at + needle.len()) == needle
}

/// `needle` stands somewhere in `hay`.
pub open spec fn contains_text(hay: Seq<char>, needle: Seq<char>) -> bool {
    exists|at: int| #[trigger] occurs_at(hay, needle, at)
}

/// `s` begins with `prefix`.
pub open spec fn starts_with(s: Seq<char>, prefix: Seq<char>) -> bool {
    prefix.is_prefix_of(s)
}

/// The position of the first character that satisfies `p`, or the length.
pub open spec fn first_where(s: Seq<char>, p: spec_fn(char) -> bool) -> nat
    decreases s.len(),
{
    if s.len() == 0 || p(s[0]) {
        0
    } else {
        1 + first_where(s.drop_first(), p)
    }
}

/// Membership in a fixed set of characters.
pub open spec fn one_of(set: Seq<char>) -> spec_fn(char) -> bool {
    |c: char| set.contains(c)
}

/// A control character: general category Cc, the C0 and C1 ranges.
pub open spec fn is_control(c: char) -> bool {
    c as u32 <= 0x1f || 0x7f <= c as u32 <= 0x9f
}

/// [`is_control`] as a predicate value.
pub open spec fn control() -> spec_fn(char) -> bool {
    |c: char| is_control(c)
}

/// A character with the Unicode property White_Space.
pub open spec fn is_space(c: char) -> bool {
    let u = c as u32;
    ||| 0x09 <= u <= 0x0d
    ||| u == 0x20
    ||| u == 0x85
    ||| u == 0xa0
    ||| u == 0x1680
    ||| 0x2000 <= u <= 0x200a
    ||| u == 0x2028
    ||| u == 0x2029
    ||| u == 0x202f
    ||| u == 0x205f
    ||| u == 0x3000
}

/// [`is_space`] as a predicate value.
pub open spec fn space() -> spec_fn(char) -> bool {
    |c: char| is_space(c)
}

/// The complement of [`space`].
pub open spec fn non_space() -> spec_fn(char) -> bool {
    |c: char| !is_space(c)
}

/// The character of a decimal or upper-case hexadecimal digit.
pub open spec fn digit(d: int) -> char {
    if 0 <= d <= 9 {
        (48 + d) as char
    } else {
        (55 + d) as char
    }
}

/// The decimal digits of `n`, without leading zeros.
pub open spec fn decimal(n: nat) -> Seq<char>
    decreases n,
{
    if n < 10 {
        seq![digit(n as int)]
    } else {
        decimal(n / 10).push(digit((n % 10) as int))
    }
}

/// The last `width` hexadecimal digits of `n`.
pub open spec fn hex(n: nat, width: nat) -> Seq<char>
    decreases width,
{
    if width == 0 {
        Seq::<char>::empty()
    } else {
        hex(n / 16, (width - 1) as nat).push(digit((n % 16) as int))
    }
}

/// Each text as `{:?}` shows it.
pub open spec fn quoted(items: Seq<Seq<char>>) -> Seq<Seq<char>> {
    Seq::new(items.len(), |i: int| debug_text(items[i]))
}

/// A list of texts as it is shown: each in its `{:?}` form, between brackets.
pub open spec fn debug_list(items: Seq<Seq<char>>) -> Seq<char> {
    "["@ + join(quoted(items), ", "@) + "]"@
}

/// The text without the slashes at its end.
pub open spec fn trim_slashes(s: Seq<char>) -> Seq<char>
    decreases s.len(),
{
    if s.len() > 0 && s.last() == '/' {
        trim_slashes(s.drop_last())
    } else {
        s
    }
}

/// The characters of a string.
pub fn chars_of(s: &str) -> (res: Vec<char>)
    ensures
        res@ == s@,
{
    let mut res: Vec<char> = Vec::new();
    for c in iter: s.chars()
        invariant
            iter.seq() == s@,
            res@ == s@.take(iter.index() as int),
    {
        res.push(c);
    }
    res
}

/// The characters `from..to` as a string.
pub fn text_between(chars: &Vec<char>, from: usize, to: usize) -> (res: String)
    requires
        from <= to <= chars@.len(),
    ensures
        res@ == chars@.subrange(from as int, to as int),
{
    let mut res = String::new();
    let mut i: usize = from;
    while i < to
        invariant
            from <= i <= to <= chars@.len(),
            res@ == chars@.subrange(from as int, i as int),
        decreases to - i,
    {
        res.push(chars[i]);
        i += 1;
        assert(chars@.subrange(from as int, i as int) =~= chars@.subrange(
            from as int,
            i - 1,
        ).push(chars@[i - 1]));
    }
    res
}

/// Whether two strings hold the same characters.
pub fn same_text(a: &str, b: &str) -> (res: bool)
    ensures
        res == (a@ == b@),
{
    a.to_owned() == b.to_owned()
}

/// Whether a list holds a given string.
pub fn lists_text(list: &Vec<String>, s: &str) -> (res: bool)
    ensures
        res == texts(list@).contains(s@),
{
    let mut i: usize = 0;
    while i < list.len()
        invariant
            i <= list@.len(),
            forall|k: int| 0 <= k < i ==> texts(list@)[k] != s@,
        decreases list@.len() - i,
    {
        if same_text(list[i].as_str(), s) {
            assert(texts(list@)[i as int] == s@);
            return true;
        }
        i += 1;
    }
    false
}

/// Executable form of [`is_control`].
pub fn control_char(c: char) -> (res: bool)
    ensures
        res == is_control(c),
        res == (c <= '\u{1f}' || ('\u{7f}' <= c && c <= '\u{9f}')),
{
    let u: u32 = c as u32;
    u <= 0x1f || (0x7f <= u && u <= 0x9f)
}

/// Executable form of [`is_space`].
pub fn space_char(c: char) -> (res: bool)
    ensures
        res == is_space(c),
        res == (('\t' <= c && c <= '\r') || c == ' ' || c == '\u{85}' || c == '\u{a0}' || c
            == '\u{1680}' || ('\u{2000}' <= c && c <= '\u{200a}') || c == '\u{2028}' || c
            == '\u{2029}' || c == '\u{202f}' || c == '\u{205f}' || c == '\u{3000}'),
{
    let u: u32 = c as u32;
    (0x09 <= u && u <= 0x0d) || u == 0x20 || u == 0x85 || u == 0xa0 || u == 0x1680 || (0x2000
        <= u && u <= 0x200a) || u == 0x2028 || u == 0x2029 || u == 0x202f || u == 0x205f || u
        == 0x3000
}

/// Whether `c` is one of the characters of `set`.
pub fn char_in(c: char, set: &Vec<char>) -> (res: bool)
    ensures
        res == set@.contains(c),
{
    let mut i: usize = 0;
    while i < set.len()
        invariant
            i <= set@.len(),
            forall|k: int| 0 <= k < i ==> set@[k] != c,
        decreases set@.len() - i,
    {
        if set[i] == c {
            return true;
        }
        i += 1;
    }
    false
}

/// A position before which no character satisfies `p`, and which either is
/// the end or holds one that does, is [`first_where`].
pub proof fn lemma_first_where(s: Seq<char>, p: spec_fn(char) -> bool, i: int)
    requires
        0 <= i <= s.len(),
        forall|k: int| 0 <= k < i ==> !p(#[trigger] s[k]),
        i < s.len() ==> p(s[i]),
    ensures
        first_where(s, p) == i,
    decreases i,
{
    if i > 0 {
        let rest = s.drop_first();
        assert(!p(s[0]));
        assert forall|k: int| 0 <= k < i - 1 implies !p(#[trigger] rest[k]) by {
            assert(rest[k] == s[k + 1]);
        }
        lemma_first_where(rest, p, i - 1);
    }
}

/// [`first_where`] is within the text, nothing before it satisfies `p`, and
/// what stands there, if anything does, satisfies it.
pub proof fn lemma_first_where_meaning(s: Seq<char>, p: spec_fn(char) -> bool)
    ensures
        first_where(s, p) <= s.len(),
        forall|k: int| 0 <= k < first_where(s, p) ==> !p(#[trigger] s[k]),
        first_where(s, p) < s.len() ==> p(s[first_where(s, p) as int]),
    decreases s.len(),
{
    if s.len() > 0 && !p(s[0]) {
        let rest = s.drop_first();
        lemma_first_where_meaning(rest, p);
        assert forall|k: int| 0 <= k < first_where(s, p) implies !p(#[trigger] s[k]) by {
            if k > 0 {
                assert(rest[k - 1] == s[k]);
            }
        }
        if first_where(s, p) < s.len() {
            assert(rest[first_where(rest, p) as int] == s[first_where(s, p) as int]);
        }
    }
}

/// The position of the first character of `chars` that is in `set`, or the
/// length.
pub fn find_any(chars: &Vec<char>, set: &Vec<char>) -> (res: usize)
    ensures
        res == first_where(chars@, one_of(set@)),
        res <= chars@.len(),
{
    let mut i: usize = 0;
    while i < chars.len()
        invariant
            i <= chars@.len(),
            forall|k: int| 0 <= k < i ==> !(one_of(set@))(#[trigger] chars@[k]),
        decreases chars@.len() - i,
    {
        if char_in(chars[i], set) {
            proof {
                lemma_first_where(chars@, one_of(set@), i as int);
            }
            return i;
        }
        i += 1;
    }
    proof {
        lemma_first_where(chars@, one_of(set@), i as int);
    }
    i
}

/// Executable form of [`contains_text`].
pub fn has_text(hay: &str, needle: &str) -> (res: bool)
    ensures
        res == contains_text(hay@, needle@),
{
    let h = chars_of(hay);
    let n = chars_of(needle);
    if n.len() > h.len() {
        return false;
    }
    let mut at: usize = 0;
    let last: usize = h.len() - n.len();
    while at <= last
        invariant
            h@ == hay@,
            n@ == needle@,
            last == h@.len() - n@.len(),
            h@.len() <= usize::MAX,
            at <= last + 1,
            last < usize::MAX || n@.len() == 0,
            forall|k: int| 0 <= k < at ==> !occurs_at(hay@, needle@, k),
        decreases last + 1 - at,
    {
        let mut k: usize = 0;
        while k < n.len() && h[at + k] == n[k]
            invariant
                k <= n@.len(),
                at + n@.len() <= h@.len() <= usize::MAX,
                h@.subrange(at as int, at + k) == n@.subrange(0, k as int),
            decreases n@.len() - k,
        {
            k += 1;
            assert(h@.subrange(at as int, at + k) =~= h@.subrange(at as int, at + k - 1).push(
                h@[at + k - 1],
            ));
            assert(n@.subrange(0, k as int) =~= n@.subrange(0, k - 1).push(n@[k - 1]));
        }
        if k == n.len() {
            assert(n@.subrange(0, k as int) =~= n@);
            assert(occurs_at(hay@, needle@, at as int));
            return true;
        }
        assert(!occurs_at(hay@, needle@, at as int)) by {
            if occurs_at(hay@, needle@, at as int) {
                assert(h@.subrange(at as int, at + n@.len())[k as int] == h@[at + k]);
            }
        }
        at += 1;
    }
    false
}

/// Executable form of [`starts_with`].
pub fn begins_with(s: &str, prefix: &str) -> (res: bool)
    ensures
        res == starts_with(s@, prefix@),
{
    let c = chars_of(s);
    let p = chars_of(prefix);
    if p.len() > c.len() {
        return false;
    }
    let mut i: usize = 0;
    while i < p.len()
        invariant
            c@ == s@,
            p@ == prefix@,
            i <= p@.len() <= c@.len(),
            forall|k: int| 0 <= k < i ==> c@[k] == p@[k],
        decreases p@.len() - i,
    {
        if c[i] != p[i] {
            assert(c@.subrange(0, p@.len() as int)[i as int] == c@[i as int]);
            return false;
        }
        i += 1;
    }
    assert(p@ =~= c@.subrange(0, p@.len() as int));
    true
}

/// [`split`] gives at least one piece.
pub(crate) proof fn lemma_split_nonempty<A>(s: Seq<A>, sep: A)
    ensures
        split(s, sep).len() > 0,
    decreases s.len(),
{
    if s.len() > 0 {
        lemma_split_nonempty(s.drop_last(), sep);
    }
}

/// Splitting distributes over a separator.
pub(crate) proof fn lemma_split_concat<A>(a: Seq<A>, b: Seq<A>, sep: A)
    ensures
        split(a.push(sep) + b, sep) == split(a, sep) + split(b, sep),
    decreases b.len(),
{
    let s = a.push(sep) + b;
    if b.len() == 0 {
        assert(s =~= a.push(sep));
        assert(s.drop_last() =~= a);
        assert(split(s, sep) =~= split(a, sep) + split(b, sep));
    } else {
        let b0 = b.drop_last();
        lemma_split_concat(a, b0, sep);
        lemma_split_nonempty(b0, sep);
        assert(s.drop_last() =~= a.push(sep) + b0);
        assert(s.last() == b.last());
        let before = split(a, sep) + split(b0, sep);
        assert(before.last() == split(b0, sep).last());
        assert(split(s, sep) =~= split(a, sep) + split(b, sep));
    }
}

/// A text without the separator is its own only piece.
pub(crate) proof fn lemma_split_whole<A>(s: Seq<A>, sep: A)
    requires
        !s.contains(sep),
    ensures
        split(s, sep) == seq![s],
    decreases s.len(),
{
    if s.len() == 0 {
        assert(s =~= Seq::<A>::empty());
    } else {
        assert(s[s.len() - 1] != sep);
        assert forall|k: int| 0 <= k < s.drop_last().len() implies s.drop_last()[k] != sep by {
            assert(s[k] != sep);
        }
        lemma_split_whole(s.drop_last(), sep);
        assert(s.drop_last().push(s.last()) =~= s);
        assert(split(s, sep) =~= seq![s]);
    }
}

/// What follows without the separator belongs to the last piece.
pub(crate) proof fn lemma_split_extend<A>(s: Seq<A>, more: Seq<A>, sep: A)
    requires
        !more.contains(sep),
    ensures
        split(s + more, sep) == split(s, sep).drop_last().push(split(s, sep).last() + more),
    decreases more.len(),
{
    lemma_split_nonempty(s, sep);
    let before = split(s, sep);
    if more.len() == 0 {
        assert(s + more =~= s);
        assert(before.last() + more =~= before.last());
        assert(before.drop_last().push(before.last()) =~= before);
    } else {
        let init = more.drop_last();
        assert(more[more.len() - 1] != sep);
        assert forall|k: int| 0 <= k < init.len() implies init[k] != sep by {
            assert(more[k] != sep);
        }
        lemma_split_extend(s, init, sep);
        assert((s + more).drop_last() =~= s + init);
        assert((before.last() + init).push(more.last()) =~= before.last() + more);
        assert(before.drop_last().push(before.last() + init).drop_last() =~= before.drop_last());
    }
}

/// The lines of `s` that end at `lf`: between those, and after the last one if
/// anything follows it. A `cr` before the end of a line belongs to the end.
pub open spec fn lines<A>(s: Seq<A>, lf: A, cr: A) -> Seq<Seq<A>> {
    let pieces = split(s, lf);
    let ended = Seq::new((pieces.len() - 1) as nat, |i: int| without_last(pieces[i], cr));
    if pieces.last().len() == 0 {
        ended
    } else {
        ended.push(pieces.last())
    }
}

/// `s` without `x` at its end.
pub open spec fn without_last<A>(s: Seq<A>, x: A) -> Seq<A> {
    if s.len() > 0 && s.last() == x {
        s.drop_last()
    } else {
        s
    }
}

/// After the end of a line, the lines of what follows are added.
pub(crate) proof fn lemma_lines_concat<A>(a: Seq<A>, b: Seq<A>, lf: A, cr: A)
    requires
        a.len() == 0 || a.last() == lf,
    ensures
        lines(a + b, lf, cr) == lines(a, lf, cr) + lines(b, lf, cr),
{
    let none = Seq::<A>::empty();
    lemma_split_nonempty(b, lf);
    if a.len() == 0 {
        assert(a + b =~= b);
        assert(split(a, lf) == seq![none]);
        assert(lines(a, lf, cr) =~= Seq::<Seq<A>>::empty());
        assert(lines(a, lf, cr) + lines(b, lf, cr) =~= lines(b, lf, cr));
    } else {
        let front = a.drop_last();
        lemma_split_nonempty(front, lf);
        lemma_split_concat(front, b, lf);
        lemma_split_concat(front, none, lf);
        assert(front.push(lf) =~= a);
        assert(front.push(lf) + none =~= a);
        let pieces = split(front, lf);
        assert(split(a, lf) == pieces + seq![none]);
        assert(split(a + b, lf) == pieces + split(b, lf));
        assert(lines(a + b, lf, cr) =~= lines(a, lf, cr) + lines(b, lf, cr));
    }
}

/// A text without a line end is its own only line.
pub(crate) proof fn lemma_lines_whole<A>(s: Seq<A>, lf: A, cr: A)
    requires
        !s.contains(lf),
        s.len() > 0,
    ensures
        lines(s, lf, cr) == seq![s],
{
    lemma_split_whole(s, lf);
    assert(lines(s, lf, cr) =~= seq![s]);
}

/// Executable form of [`split`].
pub fn split_on(s: &str, sep: char) -> (res: Vec<String>)
    ensures
        texts(res@) == split(s@, sep),
{
    let chars = chars_of(s);
    let mut res: Vec<String> = Vec::new();
    let mut cur = String::new();
    let mut i: usize = 0;
    assert(texts(res@).push(cur@) =~= split(chars@.take(0), sep));
    while i < chars.len()
        invariant
            i <= chars@.len(),
            texts(res@).push(cur@) == split(chars@.take(i as int), sep),
        decreases chars@.len() - i,
    {
        let c = chars[i];
        let ghost before = texts(res@).push(cur@);
        assert(chars@.take(i + 1).drop_last() =~= chars@.take(i as int));
        if c == sep {
            res.push(cur);
            cur = String::new();
            assert(texts(res@) =~= before);
        } else {
            cur.push(c);
            assert(before.drop_last() =~= texts(res@));
        }
        i += 1;
    }
    assert(chars@.take(i as int) =~= s@);
    let ghost all = texts(res@).push(cur@);
    res.push(cur);
    assert(texts(res@) =~= all);
    res
}

/// Executable form of [`join`].
pub fn join_texts(parts: &Vec<String>, sep: &str) -> (res: String)
    ensures
        res@ == join(texts(parts@), sep@),
{
    let mut res = String::new();
    let mut i: usize = 0;
    while i < parts.len()
        invariant
            i <= parts@.len(),
            res@ == join(texts(parts@).take(i as int), sep@),
        decreases parts@.len() - i,
    {
        let ghost next = texts(parts@).take(i + 1);
        assert(next.drop_last() =~= texts(parts@).take(i as int));
        if i > 0 {
            res.append(sep);
        }
        res.append(parts[i].as_str());
        assert(res@ =~= join(next, sep@));
        i += 1;
    }
    assert(texts(parts@).take(i as int) =~= texts(parts@));
    res
}

/// Executable form of [`digit`] for the digits below sixteen.
pub fn digit_char(d: u8) -> (res: char)
    requires
        d < 16,
    ensures
        res == digit(d as int),
{
    match d {
        0 => '0',
        1 => '1',
        2 => '2',
        3 => '3',
        4 => '4',
        5 => '5',
        6 => '6',
        7 => '7',
        8 => '8',
        9 => '9',
        10 => 'A',
        11 => 'B',
        12 => 'C',
        13 => 'D',
        14 => 'E',
        _ => 'F',
    }
}

/// Executable form of [`decimal`].
pub fn decimal_text(n: u64) -> (res: String)
    ensures
        res@ == decimal(n as nat),
    decreases n,
{
    if n < 10 {
        let mut res = String::new();
        res.push(digit_char(n as u8));
        assert(res@ =~= decimal(n as nat));
        res
    } else {
        let mut res = decimal_text(n / 10);
        res.push(digit_char((n % 10) as u8));
        res
    }
}

/// Executable form of [`hex`].
pub fn hex_text(n: u64, width: usize) -> (res: String)
    ensures
        res@ == hex(n as nat, width as nat),
    decreases width,
{
    if width == 0 {
        String::new()
    } else {
        let mut res = hex_text(n / 16, width - 1);
        res.push(digit_char((n % 16) as u8));
        res
    }
}

/// Lexicographic order by code point.
pub open spec fn text_less(a: Seq<char>, b: Seq<char>) -> bool
    decreases a.len(),
{
    if b.len() == 0 {
        false
    } else if a.len() == 0 {
        true
    } else {
        (a[0] as int) < (b[0] as int) || (a[0] == b[0] && text_less(a.drop_first(), b.drop_first()))
    }
}

/// No text comes before itself.
pub proof fn lemma_text_less_irreflexive(a: Seq<char>)
    ensures
        !text_less(a, a),
    decreases a.len(),
{
    if a.len() > 0 {
        lemma_text_less_irreflexive(a.drop_first());
    }
}

/// The order of texts is transitive.
pub proof fn lemma_text_less_transitive(a: Seq<char>, b: Seq<char>, c: Seq<char>)
    requires
        text_less(a, b),
        text_less(b, c),
    ensures
        text_less(a, c),
    decreases a.len(),
{
    if a.len() > 0 && a[0] == b[0] && b[0] == c[0] {
        lemma_text_less_transitive(a.drop_first(), b.drop_first(), c.drop_first());
    }
}

/// Of two different texts one comes before the other.
pub proof fn lemma_text_less_total(a: Seq<char>, b: Seq<char>)
    ensures
        text_less(a, b) || a == b || text_less(b, a),
    decreases a.len(),
{
    if a.len() == 0 && b.len() == 0 {
        assert(a =~= b);
    } else if a.len() > 0 && b.len() > 0 && a[0] == b[0] {
        lemma_text_less_total(a.drop_first(), b.drop_first());
        if a.drop_first() == b.drop_first() {
            assert(a =~= seq![a[0]] + a.drop_first());
            assert(b =~= seq![b[0]] + b.drop_first());
        }
    }
}

/// Skipping a common prefix does not change the order of two texts.
proof fn lemma_text_less_skip(a: Seq<char>, b: Seq<char>, n: int)
    requires
        0 <= n <= a.len(),
        n <= b.len(),
        a.take(n) == b.take(n),
    ensures
        text_less(a, b) == text_less(a.skip(n), b.skip(n)),
    decreases n,
{
    if n == 0 {
        assert(a.skip(0) =~= a);
        assert(b.skip(0) =~= b);
    } else {
        let a1 = a.drop_first();
        let b1 = b.drop_first();
        assert(a.take(n)[0] == a[0]);
        assert(b.take(n)[0] == b[0]);
        assert(a1.take(n - 1) =~= a.take(n).drop_first());
        assert(b1.take(n - 1) =~= b.take(n).drop_first());
        lemma_text_less_skip(a1, b1, n - 1);
        assert(a1.skip(n - 1) =~= a.skip(n));
        assert(b1.skip(n - 1) =~= b.skip(n));
    }
}

/// Executable form of [`text_less`].
pub fn comes_before(a: &str, b: &str) -> (res: bool)
    ensures
        res == text_less(a@, b@),
{
    let x = chars_of(a);
    let y = chars_of(b);
    let mut i: usize = 0;
    while i < x.len() && i < y.len() && x[i] == y[i]
        invariant
            x@ == a@,
            y@ == b@,
            i <= x@.len(),
            i <= y@.len(),
            x@.take(i as int) == y@.take(i as int),
        decreases x@.len() - i,
    {
        i += 1;
        assert(x@.take(i as int) =~= x@.take(i - 1).push(x@[i - 1]));
        assert(y@.take(i as int) =~= y@.take(i - 1).push(y@[i - 1]));
    }
    proof {
        lemma_text_less_skip(a@, b@, i as int);
    }
    if i >= y.len() {
        false
    } else if i >= x.len() {
        true
    } else {
        x[i] < y[i]
    }
}

/// Executable form of [`debug_list`].
pub fn quote_list(items: &Vec<String>) -> (res: String)
    ensures
        res@ == debug_list(texts(items@)),
{
    let mut shown: Vec<String> = Vec::new();
    let mut i: usize = 0;
    while i < items.len()
        invariant
            i <= items@.len(),
            shown@.len() == i,
            forall|k: int| 0 <= k < i ==> #[trigger] shown@[k]@ == debug_text(items@[k]@),
        decreases items@.len() - i,
    {
        shown.push(quote(items[i].as_str()));
        i += 1;
    }
    assert(texts(shown@) =~= quoted(texts(items@)));
    let mut res = "[".to_owned();
    res.append(join_texts(&shown, ", ").as_str());
    res.append("]");
    res
}

/// Executable form of [`trim_slashes`].
pub fn without_end_slashes(s: &str) -> (res: String)
    ensures
        res@ == trim_slashes(s@),
{
    let chars = chars_of(s);
    let mut n: usize = chars.len();
    assert(chars@.take(n as int) =~= s@);
    while n > 0 && chars[n - 1] == '/'
        invariant
            n <= chars@.len(),
            trim_slashes(chars@.take(n as int)) == trim_slashes(s@),
        decreases n,
    {
        assert(chars@.take(n as int).drop_last() =~= chars@.take(n - 1));
        n -= 1;
    }
    assert(chars@.take(n as int) =~= chars@.subrange(0, n as int));
    text_between(&chars, 0, n)
}

// ---- laws ---------------------------------------------------------------
/// The law of views: the views of a list of strings are those of its strings,
/// in order.
pub proof fn law_texts_are_the_strings(v: Seq<String>)
    ensures
        texts(v).len() == v.len(),
        forall|i: int| 0 <= i < v.len() ==> #[trigger] texts(v)[i] == v[i]@,
{
}

/// The law of splitting: a separator ends one piece and begins the next, and a
/// text without one is its own only piece.
pub proof fn law_split_cuts_at_each_separator<A>(a: Seq<A>, b: Seq<A>, sep: A)
    ensures
        split(a.push(sep) + b, sep) == split(a, sep) + split(b, sep),
        !a.contains(sep) ==> split(a, sep) == seq![a],
{
    lemma_split_concat(a, b, sep);
    if !a.contains(sep) {
        lemma_split_whole(a, sep);
    }
}

/// The law of joining: the separator stands between neighbours and nowhere
/// else.
pub proof fn law_join_puts_between(a: Seq<Seq<char>>, b: Seq<Seq<char>>, sep: Seq<char>)
    ensures
        a.len() > 0 && b.len() > 0 ==> join(a + b, sep) == join(a, sep) + sep + join(b, sep),
        a.len() == 1 ==> join(a, sep) == a[0],
        a.len() == 0 ==> join(a, sep) == Seq::<char>::empty(),
    decreases b.len(),
{
    if a.len() > 0 && b.len() > 0 {
        let all = a + b;
        assert(all.last() == b.last());
        assert(all.drop_last() =~= a + b.drop_last());
        if b.len() == 1 {
            assert(a + b.drop_last() =~= a);
        } else {
            law_join_puts_between(a, b.drop_last(), sep);
            assert(join(a, sep) + sep + join(b.drop_last(), sep) + sep + b.last() =~= join(a, sep)
                + sep + (join(b.drop_last(), sep) + sep + b.last()));
        }
    }
}

/// The law of occurrence: a text holds another exactly if it is something, the
/// other, and something more; it begins with another exactly if it is the other
/// and something more.
pub proof fn law_occurrence_is_a_part(hay: Seq<char>, needle: Seq<char>)
    ensures
        contains_text(hay, needle) <==> exists|a: Seq<char>, b: Seq<char>|
            hay == #[trigger] (a + needle + b),
        starts_with(hay, needle) <==> exists|b: Seq<char>| hay == #[trigger] (needle + b),
{
    if contains_text(hay, needle) {
        let at = choose|at: int| #[trigger] occurs_at(hay, needle, at);
        let a = hay.take(at);
        let b = hay.skip(at + needle.len());
        assert(hay =~= a + needle + b);
    }
    if exists|a: Seq<char>, b: Seq<char>| hay == #[trigger] (a + needle + b) {
        let (a, b) = choose|a: Seq<char>, b: Seq<char>| hay == #[trigger] (a + needle + b);
        assert(hay.subrange(a.len() as int, a.len() as int + needle.len()) =~= needle);
        assert(occurs_at(hay, needle, a.len() as int));
    }
    if starts_with(hay, needle) {
        let b = hay.skip(needle.len() as int);
        assert(needle == hay.subrange(0, needle.len() as int));
        assert(hay =~= needle + b);
    }
    if exists|b: Seq<char>| hay == #[trigger] (needle + b) {
        let b = choose|b: Seq<char>| hay == #[trigger] (needle + b);
        assert(needle =~= hay.subrange(0, needle.len() as int));
    }
}

/// The law of control characters: they are the C0 controls, delete, and the C1
/// controls.
pub proof fn law_control_characters(c: char)
    ensures
        is_control(c) <==> '\u{0}' <= c <= '\u{1f}' || c == '\u{7f}' || '\u{80}' <= c <= '\u{9f}',
        (control())(c) == is_control(c),
{
}

/// The law of white space: the ASCII kinds, next line, the no-break spaces and
/// the Unicode spaces and separators.
pub proof fn law_white_space(c: char)
    ensures
        is_space(c) <==> {
            ||| c == ' ' || '\t' <= c <= '\r'
            ||| c == '\u{85}' || c == '\u{a0}' || c == '\u{1680}'
            ||| '\u{2000}' <= c <= '\u{200a}'
            ||| c == '\u{2028}' || c == '\u{2029}' || c == '\u{202f}'
            ||| c == '\u{205f}' || c == '\u{3000}'
        },
        (space())(c) == is_space(c),
        (non_space())(c) == !is_space(c),
{
}

/// The number that decimal digits spell.
pub open spec fn number_of(s: Seq<char>) -> int
    decreases s.len(),
{
    if s.len() == 0 {
        0
    } else {
        10 * number_of(s.drop_last()) + (s.last() as int - '0' as int)
    }
}

/// The law of decimals: the digits of a number spell it, and the first of them
/// is not a zero unless it is the only one.
pub proof fn law_decimal_spells_the_number(n: nat)
    ensures
        number_of(decimal(n)) == n,
        decimal(n).len() > 0,
        forall|i: int| 0 <= i < decimal(n).len() ==> '0' <= #[trigger] decimal(n)[i] <= '9',
        decimal(n)[0] == '0' ==> decimal(n).len() == 1,
    decreases n,
{
    let s = decimal(n);
    if n < 10 {
        reveal_with_fuel(number_of, 2);
        assert(s.drop_last() =~= Seq::<char>::empty());
    } else {
        law_decimal_spells_the_number(n / 10);
        assert(s.drop_last() =~= decimal(n / 10));
        assert(decimal(n / 10)[0] == s[0]);
        if n / 10 < 10 {
            assert(decimal(n / 10)[0] == digit((n / 10) as int));
        } else if s[0] == '0' {
            assert(decimal(n / 10).len() == 1);
            assert(decimal(n / 100).len() > 0) by {
                law_decimal_spells_the_number(n / 100);
            }
        }
    }
}

/// The number that upper-case hexadecimal digits spell.
pub open spec fn hex_number_of(s: Seq<char>) -> int
    decreases s.len(),
{
    if s.len() == 0 {
        0
    } else {
        let c = s.last();
        16 * hex_number_of(s.drop_last()) + (if '0' <= c <= '9' {
            c as int - '0' as int
        } else {
            c as int - 'A' as int + 10
        })
    }
}

/// The numbers below it have so many hexadecimal digits.
pub open spec fn sixteen_to(width: nat) -> int
    decreases width,
{
    if width == 0 {
        1
    } else {
        16 * sixteen_to((width - 1) as nat)
    }
}

/// The law of hexadecimals: as many upper-case digits as asked for, and they
/// spell the number if it has no more.
pub proof fn law_hex_spells_the_number(n: nat, width: nat)
    ensures
        hex(n, width).len() == width,
        forall|i: int|
            0 <= i < width ==> '0' <= #[trigger] hex(n, width)[i] <= '9' || 'A' <= hex(n, width)[i]
                <= 'F',
        n < sixteen_to(width) ==> hex_number_of(hex(n, width)) == n,
    decreases width,
{
    if width > 0 {
        let w = (width - 1) as nat;
        law_hex_spells_the_number(n / 16, w);
        let s = hex(n, width);
        assert(s.drop_last() =~= hex(n / 16, w));
    }
}

/// The law of trimming: what is left is a beginning of the text that does not
/// end in a slash, and all that went were slashes.
pub proof fn law_trimming_takes_only_slashes(s: Seq<char>)
    ensures
        ({
            let t = trim_slashes(s);
            &&& t.len() <= s.len()
            &&& t == s.take(t.len() as int)
            &&& t.len() == 0 || t.last() != '/'
            &&& forall|i: int| t.len() <= i < s.len() ==> #[trigger] s[i] == '/'
        }),
    decreases s.len(),
{
    let t = trim_slashes(s);
    if s.len() > 0 && s.last() == '/' {
        let init = s.drop_last();
        law_trimming_takes_only_slashes(init);
        assert(init.take(t.len() as int) =~= s.take(t.len() as int));
        assert forall|i: int| t.len() <= i < s.len() implies #[trigger] s[i] == '/' by {
            if i < init.len() {
                assert(init[i] == s[i]);
            }
        }
    } else {
        assert(s.take(s.len() as int) =~= s);
    }
}

/// The law of order: one text comes before another exactly if the two agree up
/// to a place where the first ends, or has a smaller character.
pub proof fn law_order_goes_by_the_first_difference(a: Seq<char>, b: Seq<char>)
    ensures
        text_less(a, b) <==> exists|k: int|
            0 <= k <= a.len() && k < b.len() && #[trigger] a.take(k) == b.take(k) && (k == a.len()
                || (a[k] as int) < (b[k] as int)),
    decreases a.len(),
{
    if a.len() == 0 || b.len() == 0 {
        if b.len() > 0 {
            assert(a.take(0) =~= b.take(0));
        }
    } else {
        let a1 = a.drop_first();
        let b1 = b.drop_first();
        law_order_goes_by_the_first_difference(a1, b1);
        assert(a.take(0) =~= b.take(0));
        if a[0] == b[0] {
            if text_less(a1, b1) {
                let k = choose|k: int|
                    0 <= k <= a1.len() && k < b1.len() && #[trigger] a1.take(k) == b1.take(k) && (k
                        == a1.len() || (a1[k] as int) < (b1[k] as int));
                assert(a.take(k + 1) =~= seq![a[0]] + a1.take(k));
                assert(b.take(k + 1) =~= seq![b[0]] + b1.take(k));
            }
        }
        if exists|k: int|
            0 <= k <= a.len() && k < b.len() && #[trigger] a.take(k) == b.take(k) && (k == a.len()
                || (a[k] as int) < (b[k] as int)) {
            let k = choose|k: int|
                0 <= k <= a.len() && k < b.len() && #[trigger] a.take(k) == b.take(k) && (k
                    == a.len() || (a[k] as int) < (b[k] as int));
            if k > 0 {
                assert(a.take(k)[0] == b.take(k)[0]);
                assert(a1.take(k - 1) =~= a.take(k).drop_first());
                assert(b1.take(k - 1) =~= b.take(k).drop_first());
            }
        }
    }
}

/// The law of lines: a line ends at its line end, a carriage return before that
/// belongs to it, and what follows the last one is a line unless it is empty.
pub proof fn law_lines_end_at_line_ends<A>(a: Seq<A>, b: Seq<A>, lf: A, cr: A)
    requires
        !a.contains(lf),
    ensures
        lines(a.push(lf) + b, lf, cr) == seq![
            if a.len() > 0 && a.last() == cr {
                a.drop_last()
            } else {
                a
            },
        ] + lines(b, lf, cr),
        lines(a, lf, cr) == (if a.len() == 0 {
            Seq::<Seq<A>>::empty()
        } else {
            seq![a]
        }),
{
    let none = Seq::<A>::empty();
    lemma_lines_concat(a.push(lf), b, lf, cr);
    lemma_split_concat(a, none, lf);
    lemma_split_whole(a, lf);
    lemma_split_whole(none, lf);
    assert(a.push(lf) + none =~= a.push(lf));
    assert(split(a.push(lf), lf) =~= seq![a, none]);
    assert(lines(a.push(lf), lf, cr) =~= seq![without_last(a, cr)]);
    if a.len() > 0 {
        lemma_lines_whole(a, lf, cr);
    } else {
        assert(lines(a, lf, cr) =~= Seq::<Seq<A>>::empty());
    }
}

} // verus!

//! Text as sequences of characters: white space, comparison, search, case
//! mapping, decimal numbers, words and joining.
use vstd::prelude::*;

verus! {

/// Unicode `White_Space`: the characters that `char::is_whitespace` accepts,
/// and so the ones `str::trim` and `str::split_whitespace` treat as blanks.
pub open spec fn is_space(c: char) -> bool {
    let u = c as u32;
    ||| 0x09 <= u <= 0x0d
    ||| u == 0x20
    ||| u == 0x85
    ||| u == 0xa0
    ||| u == 0x1680
    ||| 0x2000 <= u <= 0x200a
    ||| u == 0x2028
    ||| u == 0x2029
    ||| u == 0x202f
    ||| u == 0x205f
    ||| u == 0x3000
}

/// A text is blank when it holds nothing but white space (`trim()` leaves it empty).
pub open spec fn blank(s: Seq<char>) -> bool {
    forall|i: int| 0 <= i < s.len() ==> is_space(#[trigger] s[i])
}

pub fn char_is_space(c: char) -> (r: bool)
    ensures
        r == is_space(c),
{
    let u = c as u32;
    (0x09 <= u && u <= 0x0d) || u == 0x20 || u == 0x85 || u == 0xa0 || u == 0x1680
        || (0x2000 <= u && u <= 0x200a) || u == 0x2028 || u == 0x2029 || u == 0x202f
        || u == 0x205f || u == 0x3000
}

/// The characters of a text, in order.
pub fn chars_of(s: &str) -> (v: Vec<char>)
    ensures
        v@ == s@,
{
    let mut v: Vec<char> = Vec::new();
    for c in it: s.chars()
        invariant
            it.seq() == s@,
            v@ == it.seq().take(it.index() as int),
    {
        v.push(c);
    }
    v
}

/// Whether `s` is empty once surrounding white space is trimmed.
pub fn is_blank(s: &str) -> (r: bool)
    ensures
        r == blank(s@),
{
    let cs = chars_of(s);
    let mut i: usize = 0;
    while i < cs.len()
        invariant
            cs@ == s@,
            i <= cs.len(),
            forall|j: int| 0 <= j < i ==> is_space(#[trigger] cs@[j]),
        decreases cs.len() - i,
    {
        if !char_is_space(cs[i]) {
            return false;
        }
        i = i + 1;
    }
    true
}

/// Whether two texts hold the same characters.
pub fn text_eq(a: &str, b: &str) -> (r: bool)
    ensures
        r == (a@ == b@),
{
    let ca = chars_of(a);
    let cb = chars_of(b);
    if ca.len() != cb.len() {
        return false;
    }
    let mut i: usize = 0;
    while i < ca.len()
        invariant
            ca@ == a@,
            cb@ == b@,
            ca.len() == cb.len(),
            i <= ca.len(),
            forall|j: int| 0 <= j < i ==> ca@[j] == cb@[j],
        decreases ca.len() - i,
    {
        if ca[i] != cb[i] {
            return false;
        }
        i = i + 1;
    }
    assert(ca@ =~= cb@);
    true
}

/// `String::push`: appends one character.
#[verifier::external_body]
pub(crate) fn push_char(s: &mut String, c: char)
    ensures
        final(s)@ == old(s)@.push(c),
{
    s.push(c);
}

/// Appends the characters of `t` to `s`.
pub fn push_text(s: &mut String, t: &str)
    ensures
        final(s)@ == old(s)@ + t@,
{
    let ct = chars_of(t);
    let ghost start = s@;
    let mut i: usize = 0;
    while i < ct.len()
        invariant
            ct@ == t@,
            i <= ct.len(),
            s@ == start + ct@.take(i as int),
        decreases ct.len() - i,
    {
        push_char(s, ct[i]);
        assert(ct@.take(i as int).push(ct@[i as int]) =~= ct@.take(i + 1));
        i = i + 1;
    }
    assert(ct@.take(ct.len() as int) =~= ct@);
}

/// A fresh `String` holding the characters of `t`.
pub fn text_to_string(t: &str) -> (r: String)
    ensures
        r@ == t@,
{
    let mut r = String::new();
    push_text(&mut r, t);
    r
}

/// `pat` occurs in `s` starting at position `i`.
pub open spec fn occurs_at(s: Seq<char>, pat: Seq<char>, i: int) -> bool {
    0 <= i && i + pat.len() <= s.len() && s.subrange(i, i + pat.len()) == pat
}

pub open spec fn contains_text(s: Seq<char>, pat: Seq<char>) -> bool {
    exists|i: int| occurs_at(s, pat, i)
}

/// The first position at which `pat` occurs in `s`.
pub open spec fn first_occurrence(s: Seq<char>, pat: Seq<char>) -> Option<int> {
    if exists|i: int| occurs_at(s, pat, i) && forall|j: int| 0 <= j < i ==> !occurs_at(s, pat, j) {
        Some(choose|i: int| occurs_at(s, pat, i) && forall|j: int| 0 <= j < i ==> !occurs_at(s, pat, j))
    } else {
        None
    }
}

proof fn lemma_first_occurrence_is(s: Seq<char>, pat: Seq<char>, i: int)
    requires
        occurs_at(s, pat, i),
        forall|j: int| 0 <= j < i ==> !occurs_at(s, pat, j),
    ensures
        first_occurrence(s, pat) == Some(i),
{
    let c = choose|c: int| occurs_at(s, pat, c) && forall|j: int| 0 <= j < c ==> !occurs_at(s, pat, j);
    if c < i {
        assert(!occurs_at(s, pat, c));
    } else if i < c {
        assert(!occurs_at(s, pat, i));
    }
}

fn matches_at(s: &Vec<char>, pat: &Vec<char>, i: usize) -> (r: bool)
    requires
        i + pat.len() <= s.len(),
    ensures
        r == occurs_at(s@, pat@, i as int),
{
    let mut k: usize = 0;
    while k < pat.len()
        invariant
            i + pat.len() <= s.len(),
            k <= pat@.len(),
            forall|m: int| 0 <= m < k ==> s@[i + m] == pat@[m],
        decreases pat.len() - k,
    {
        if s[i + k] != pat[k] {
            assert(s@.subrange(i as int, i + pat@.len())[k as int] != pat@[k as int]);
            return false;
        }
        k = k + 1;
    }
    assert(s@.subrange(i as int, i + pat@.len()) =~= pat@);
    true
}

/// The first character position at which `pat` occurs in `s` (what `str::find`
/// reports, counted in characters rather than bytes).
pub fn find_text(s: &str, pat: &str) -> (r: Option<usize>)
    ensures
        r matches Some(i) ==> first_occurrence(s@, pat@) == Some(i as int),
        r is None ==> first_occurrence(s@, pat@) is None,
        r is None == !contains_text(s@, pat@),
{
    let cs = chars_of(s);
    let cp = chars_of(pat);
    if cp.len() > cs.len() {
        assert forall|i: int| !occurs_at(s@, pat@, i) by {}
        return None;
    }
    let last = cs.len() - cp.len();
    let mut i: usize = 0;
    while i < last
        invariant
            cs@ == s@,
            cp@ == pat@,
            last == cs.len() - cp.len(),
            i <= last,
            forall|j: int| 0 <= j < i ==> !occurs_at(s@, pat@, j),
        decreases last - i,
    {
        if matches_at(&cs, &cp, i) {
            proof {
                lemma_first_occurrence_is(s@, pat@, i as int);
            }
            return Some(i);
        }
        i = i + 1;
    }
    if matches_at(&cs, &cp, last) {
        proof {
            lemma_first_occurrence_is(s@, pat@, last as int);
        }
        return Some(last);
    }
    assert forall|j: int| !occurs_at(s@, pat@, j) by {}
    None
}

/// Whether `pat` occurs in `s` (`str::contains`).
pub fn contains(s: &str, pat: &str) -> (r: bool)
    ensures
        r == contains_text(s@, pat@),
{
    find_text(s, pat).is_some()
}

/// What `str::to_lowercase` gives for a text (full Unicode case mapping).
pub uninterp spec fn lowercase(s: Seq<char>) -> Seq<char>;

/// What `str::to_uppercase` gives for a text (full Unicode case mapping).
pub uninterp spec fn uppercase(s: Seq<char>) -> Seq<char>;

/// `str::to_lowercase`; the result is named, as it depends on the text alone.
#[verifier::external_body]
pub(crate) fn to_lowercase(s: &str) -> (r: String)
    ensures
        r@ == lowercase(s@),
{
    s.to_lowercase()
}

/// `str::to_uppercase`; the result is named, as it depends on the text alone.
#[verifier::external_body]
pub(crate) fn to_uppercase(s: &str) -> (r: String)
    ensures
        r@ == uppercase(s@),
{
    s.to_uppercase()
}

pub open spec fn digit_char(d: nat) -> char {
    ((48 + d) as u8) as char
}

/// The decimal digits of a number.
pub open spec fn decimal(n: nat) -> Seq<char>
    decreases n,
{
    if n < 10 {
        seq![digit_char(n)]
    } else {
        decimal(n / 10).push(digit_char(n % 10))
    }
}

/// Appends the decimal digits of `n`.
pub fn push_decimal(s: &mut String, n: u64)
    ensures
        final(s)@ == old(s)@ + decimal(n as nat),
    decreases n,
{
    if n >= 10 {
        push_decimal(s, n / 10);
    }
    let d: u8 = (n % 10) as u8;
    push_char(s, (48u8 + d) as char);
    proof {
        assert(decimal(n as nat) =~= if n < 10 { seq![digit_char(n as nat)] } else { decimal((n / 10) as nat).push(digit_char((n % 10) as nat)) });
    }
}

/// A whole number written in decimal, with a '-' in front when negative.
pub open spec fn signed_decimal(n: int) -> Seq<char> {
    if n < 0 {
        seq!['-'] + decimal((-n) as nat)
    } else {
        decimal(n as nat)
    }
}

/// Appends `n` written in decimal.
pub fn push_signed(s: &mut String, n: i64)
    ensures
        final(s)@ == old(s)@ + signed_decimal(n as int),
{
    if n < 0 {
        push_char(s, '-');
        let m: u64 = ((-(n + 1)) as u64) + 1;
        push_decimal(s, m);
        assert(s@ =~= old(s)@ + signed_decimal(n as int));
    } else {
        push_decimal(s, n as u64);
    }
}

/// The words of a text: its maximal runs of non-blank characters, in order
/// (what `str::split_whitespace` yields).
pub open spec fn words(s: Seq<char>) -> Seq<Seq<char>>
    decreases s.len(),
{
    if s.len() == 0 {
        Seq::empty()
    } else {
        let prev = words(s.drop_last());
        let c = s.last();
        if is_space(c) {
            prev
        } else if s.len() >= 2 && !is_space(s[s.len() - 2]) && prev.len() > 0 {
            prev.drop_last().push(prev.last().push(c))
        } else {
            prev.push(seq![c])
        }
    }
}

/// The texts joined with `sep` between them.
pub open spec fn joined(list: Seq<Seq<char>>, sep: Seq<char>) -> Seq<char>
    decreases list.len(),
{
    if list.len() == 0 {
        Seq::empty()
    } else if list.len() == 1 {
        list[0]
    } else {
        joined(list.drop_last(), sep) + sep + list.last()
    }
}

/// A word as `words` yields it: not empty, and without white space.
pub open spec fn plain_word(w: Seq<char>) -> bool {
    w.len() > 0 && forall|i: int| 0 <= i < w.len() ==> !is_space(#[trigger] w[i])
}

/// Every word of a text is a plain word.
pub proof fn lemma_words_plain(s: Seq<char>)
    ensures
        forall|k: int| 0 <= k < words(s).len() ==> plain_word(#[trigger] words(s)[k]),
    decreases s.len(),
{
    if s.len() > 0 {
        lemma_words_plain(s.drop_last());
        let prev = words(s.drop_last());
        let c = s.last();
        if !is_space(c) {
            if s.len() >= 2 && !is_space(s[s.len() - 2]) && prev.len() > 0 {
                let w = prev.last().push(c);
                assert(plain_word(prev[prev.len() - 1]));
                assert forall|i: int| 0 <= i < w.len() implies !is_space(#[trigger] w[i]) by {
                    if i < w.len() - 1 {
                        assert(w[i] == prev.last()[i]);
                    }
                }
                assert forall|k: int| 0 <= k < words(s).len() implies plain_word(#[trigger] words(s)[k]) by {
                    if k < prev.len() - 1 {
                        assert(words(s)[k] == prev[k]);
                    }
                }
            } else {
                assert forall|k: int| 0 <= k < words(s).len() implies plain_word(#[trigger] words(s)[k]) by {
                    if k < prev.len() {
                        assert(words(s)[k] == prev[k]);
                    } else {
                        assert(words(s)[k] == seq![c]);
                    }
                }
            }
        }
    }
}

/// A plain word written after a blank (or at the start) adds itself as the
/// text's last word.
proof fn lemma_words_append_word(s: Seq<char>, w: Seq<char>)
    requires
        s.len() == 0 || is_space(s.last()),
        plain_word(w),
    ensures
        words(s + w) == words(s).push(w),
    decreases w.len(),
{
    let t = s + w;
    let c = w.last();
    assert(!is_space(w[w.len() - 1]));
    if w.len() == 1 {
        assert(t.drop_last() =~= s);
        assert(w =~= seq![c]);
        if s.len() > 0 {
            assert(t[t.len() - 2] == s.last());
        }
    } else {
        let w0 = w.drop_last();
        assert forall|i: int| 0 <= i < w0.len() implies !is_space(#[trigger] w0[i]) by {
            assert(w0[i] == w[i]);
        }
        lemma_words_append_word(s, w0);
        assert(t.drop_last() =~= s + w0);
        assert(t[t.len() - 2] == w0.last());
        assert(!is_space(w[w.len() - 2]));
        let prev = words(s + w0);
        assert(prev.drop_last() =~= words(s));
        assert(w0.push(c) =~= w);
    }
}

/// Plain words joined with single spaces split back into the same words.
pub proof fn lemma_words_of_joined(ws: Seq<Seq<char>>)
    requires
        forall|k: int| 0 <= k < ws.len() ==> plain_word(#[trigger] ws[k]),
    ensures
        words(joined(ws, " "@)) == ws,
    decreases ws.len(),
{
    reveal_strlit(" ");
    if ws.len() == 0 {
    } else if ws.len() == 1 {
        assert(plain_word(ws[0]));
        lemma_words_append_word(Seq::empty(), ws[0]);
        assert(Seq::<char>::empty() + ws[0] =~= ws[0]);
        assert(seq![ws[0]] =~= ws);
    } else {
        let front = ws.drop_last();
        assert forall|k: int| 0 <= k < front.len() implies plain_word(#[trigger] front[k]) by {
            assert(front[k] == ws[k]);
        }
        lemma_words_of_joined(front);
        let j = joined(front, " "@);
        let sp = j + " "@;
        assert(sp =~= j.push(' '));
        assert(sp.drop_last() =~= j);
        assert(is_space(' '));
        assert(words(sp) == words(j));
        assert(plain_word(ws[ws.len() - 1]));
        lemma_words_append_word(sp, ws.last());
        assert(joined(ws, " "@) == sp + ws.last());
        assert(front.push(ws.last()) =~= ws);
    }
}

/// Joining puts every text in, in order, with one separator between
/// neighbours: one more text adds the separator and itself at the end.
pub proof fn lemma_joined_push(list: Seq<Seq<char>>, x: Seq<char>, sep: Seq<char>)
    ensures
        joined(Seq::empty(), sep) == Seq::<char>::empty(),
        joined(seq![x], sep) == x,
        list.len() > 0 ==> joined(list.push(x), sep) == joined(list, sep) + sep + x,
{
    assert(list.push(x).drop_last() =~= list);
    assert(seq![x][0] == x);
}

/// Joining a word in front of a non-empty list puts it and one separator
/// before the rest.
pub proof fn lemma_joined_prepend(a: Seq<char>, ws: Seq<Seq<char>>, sep: Seq<char>)
    requires
        ws.len() > 0,
    ensures
        joined(seq![a] + ws, sep) == a + sep + joined(ws, sep),
    decreases ws.len(),
{
    let l = seq![a] + ws;
    if ws.len() == 1 {
        assert(l.drop_last() =~= seq![a]);
        assert(l.last() == ws[0]);
        assert(joined(seq![a], sep) == a);
    } else {
        lemma_joined_prepend(a, ws.drop_last(), sep);
        assert(l.drop_last() =~= seq![a] + ws.drop_last());
        assert(l.last() == ws.last());
        assert(a + sep + joined(ws.drop_last(), sep) + sep + ws.last() =~= a + sep + (joined(ws.drop_last(), sep) + sep + ws.last()));
    }
}

pub open spec fn texts_of(v: Seq<String>) -> Seq<Seq<char>> {
    v.map_values(|s: String| s@)
}

/// Splits a text into its words.
pub fn split_words(s: &str) -> (r: Vec<String>)
    ensures
        texts_of(r@) == words(s@),
{
    let cs = chars_of(s);
    let mut out: Vec<String> = Vec::new();
    let mut cur = String::new();
    let mut in_word = false;
    let mut i: usize = 0;
    while i < cs.len()
        invariant
            cs@ == s@,
            i <= cs@.len(),
            in_word == (i > 0 && !is_space(cs@[i - 1])),
            in_word ==> words(cs@.take(i as int)) == texts_of(out@).push(cur@),
            !in_word ==> words(cs@.take(i as int)) == texts_of(out@),
        decreases cs.len() - i,
    {
        let c = cs[i];
        let ghost t = cs@.take(i + 1);
        proof {
            assert(t.drop_last() =~= cs@.take(i as int));
            assert(t.last() == c);
            if i > 0 {
                assert(t[t.len() - 2] == cs@[i - 1]);
            }
        }
        if char_is_space(c) {
            if in_word {
                let ghost o0 = out@;
                let mut done = String::new();
                std::mem::swap(&mut done, &mut cur);
                out.push(done);
                proof {
                    assert(texts_of(out@) =~= texts_of(o0).push(done@));
                }
            }
            in_word = false;
        } else {
            if in_word {
                proof {
                    assert(texts_of(out@).push(cur@).drop_last() =~= texts_of(out@));
                }
                push_char(&mut cur, c);
            } else {
                cur = String::new();
                push_char(&mut cur, c);
                proof {
                    assert(cur@ =~= seq![c]);
                }
            }
            in_word = true;
        }
        i = i + 1;
    }
    if in_word {
        let ghost o0 = out@;
        out.push(cur);
        proof {
            assert(texts_of(out@) =~= texts_of(o0).push(cur@));
        }
    }
    assert(cs@.take(cs@.len() as int) =~= cs@);
    out
}

/// Joins texts with `sep` between them.
pub fn join_texts(list: &Vec<String>, sep: &str) -> (r: String)
    ensures
        r@ == joined(texts_of(list@), sep@),
{
    let ghost v = texts_of(list@);
    let mut r = String::new();
    let mut i: usize = 0;
    while i < list.len()
        invariant
            v == texts_of(list@),
            i <= list@.len(),
            r@ == joined(v.take(i as int), sep@),
        decreases list.len() - i,
    {
        if i > 0 {
            push_text(&mut r, sep);
        }
        push_text(&mut r, list[i].as_str());
        proof {
            let t = v.take(i + 1);
            assert(t.drop_last() =~= v.take(i as int));
            assert(t.last() == list@[i as int]@);
            if i == 0 {
                assert(t.len() == 1);
                assert(r@ =~= t[0]);
            }
        }
        i = i + 1;
    }
    assert(v.take(list@.len() as int) =~= v);
    r
}

/// `s` begins with `p`.
pub open spec fn has_prefix(s: Seq<char>, p: Seq<char>) -> bool {
    s.len() >= p.len() && s.subrange(0, p.len() as int) == p
}

pub fn starts_with(s: &str, p: &str) -> (r: bool)
    ensures
        r == has_prefix(s@, p@),
{
    let cs = chars_of(s);
    let cp = chars_of(p);
    if cs.len() < cp.len() {
        return false;
    }
    let mut i: usize = 0;
    while i < cp.len()
        invariant
            cs@ == s@,
            cp@ == p@,
            cs@.len() >= cp@.len(),
            i <= cp@.len(),
            cs@.subrange(0, i as int) == cp@.subrange(0, i as int),
        decreases cp.len() - i,
    {
        if cs[i] != cp[i] {
            proof {
                assert(cs@.subrange(0, cp@.len() as int)[i as int] != cp@[i as int]);
            }
            return false;
        }
        proof {
            assert(cs@.subrange(0, i + 1) =~= cs@.subrange(0, i as int).push(cs@[i as int]));
            assert(cp@.subrange(0, i + 1) =~= cp@.subrange(0, i as int).push(cp@[i as int]));
        }
        i = i + 1;
    }
    assert(cp@.subrange(0, cp@.len() as int) =~= cp@);
    true
}

/// The characters of `s` from position `from` to `to`.
pub fn slice_text(s: &str, from: usize, to: usize) -> (r: String)
    requires
        from <= to <= s@.len(),
    ensures
        r@ == s@.subrange(from as int, to as int),
{
    let cs = chars_of(s);
    let mut r = String::new();
    let mut i = from;
    while i < to
        invariant
            cs@ == s@,
            from <= i <= to,
            to <= cs@.len(),
            r@ == cs@.subrange(from as int, i as int),
        decreases to - i,
    {
        push_char(&mut r, cs[i]);
        proof {
            assert(cs@.subrange(from as int, i + 1) =~= cs@.subrange(from as int, i as int).push(cs@[i as int]));
        }
        i = i + 1;
    }
    r
}

/// The number of characters of `s`.
pub fn char_count(s: &str) -> (r: usize)
    ensures
        r == s@.len(),
{
    chars_of(s).len()
}

} // verus!

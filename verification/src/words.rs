use vstd::prelude::*;
use vstd::string::*;

verus! {

/// The characters with the Unicode `White_Space` property.
pub open spec fn is_white_space(c: char) -> bool {
    ||| '\u{9}' <= c <= '\u{d}'
    ||| c == ' '
    ||| c == '\u{85}'
    ||| c == '\u{a0}'
    ||| c == '\u{1680}'
    ||| '\u{2000}' <= c <= '\u{200a}'
    ||| c == '\u{2028}'
    ||| c == '\u{2029}'
    ||| c == '\u{202f}'
    ||| c == '\u{205f}'
    ||| c == '\u{3000}'
}

/// Whether `c` is white space, as `char::is_whitespace` decides it.
pub fn is_whitespace(c: char) -> (b: bool)
    ensures
        b == is_white_space(c),
{
    ('\u{9}' <= c && c <= '\u{d}') || c == ' ' || c == '\u{85}' || c == '\u{a0}' || c
        == '\u{1680}' || ('\u{2000}' <= c && c <= '\u{200a}') || c == '\u{2028}' || c
        == '\u{2029}' || c == '\u{202f}' || c == '\u{205f}' || c == '\u{3000}'
}

/// Reading the first `n` characters of `s`: the words completed so far, and
/// the characters of the word being read.
pub open spec fn ws_scan(s: Seq<char>, n: nat) -> (Seq<Seq<char>>, Seq<char>)
    recommends
        n <= s.len(),
    decreases n,
{
    if n == 0 {
        (Seq::empty(), Seq::empty())
    } else {
        let (done, cur) = ws_scan(s, (n - 1) as nat);
        let c = s[n - 1];
        if is_white_space(c) {
            if cur.len() > 0 {
                (done.push(cur), Seq::empty())
            } else {
                (done, Seq::empty())
            }
        } else {
            (done, cur.push(c))
        }
    }
}

/// The words of `s`: its maximal runs of characters that are not white space,
/// in order.
pub open spec fn split_ws(s: Seq<char>) -> Seq<Seq<char>> {
    let (done, cur) = ws_scan(s, s.len());
    if cur.len() > 0 {
        done.push(cur)
    } else {
        done
    }
}

proof fn lemma_ws_scan_nonempty(s: Seq<char>, n: nat)
    requires
        n <= s.len(),
    ensures
        forall|k: int| 0 <= k < ws_scan(s, n).0.len() ==> (#[trigger] ws_scan(s, n).0[k]).len() > 0,
    decreases n,
{
    if n > 0 {
        lemma_ws_scan_nonempty(s, (n - 1) as nat);
        let (done, cur) = ws_scan(s, (n - 1) as nat);
        let now = ws_scan(s, n).0;
        assert forall|k: int| 0 <= k < now.len() implies (#[trigger] now[k]).len() > 0 by {
            if k < done.len() {
                assert(now[k] == done[k]);
            }
        }
    }
}

/// Every word has at least one character.
pub proof fn lemma_words_nonempty(s: Seq<char>)
    ensures
        forall|k: int| 0 <= k < split_ws(s).len() ==> (#[trigger] split_ws(s)[k]).len() > 0,
{
    lemma_ws_scan_nonempty(s, s.len());
    let (done, cur) = ws_scan(s, s.len());
    assert forall|k: int| 0 <= k < split_ws(s).len() implies (#[trigger] split_ws(s)[k]).len() > 0 by {
        if k < done.len() {
            assert(split_ws(s)[k] == done[k]);
        }
    }
}

proof fn lemma_ws_scan_no_white(s: Seq<char>, n: nat)
    requires
        n <= s.len(),
    ensures
        forall|k: int, i: int|
            0 <= k < ws_scan(s, n).0.len() && 0 <= i < ws_scan(s, n).0[k].len() ==> !is_white_space(
                #[trigger] ws_scan(s, n).0[k][i],
            ),
        forall|i: int| 0 <= i < ws_scan(s, n).1.len() ==> !is_white_space(#[trigger] ws_scan(s, n).1[i]),
    decreases n,
{
    if n > 0 {
        lemma_ws_scan_no_white(s, (n - 1) as nat);
        let (done, cur) = ws_scan(s, (n - 1) as nat);
        let now = ws_scan(s, n);
        assert forall|k: int, i: int|
            0 <= k < now.0.len() && 0 <= i < now.0[k].len() implies !is_white_space(#[trigger] now.0[k][i]) by {
            if k < done.len() {
                assert(now.0[k] == done[k]);
            } else {
                assert(now.0[k] == cur);
            }
        }
        assert forall|i: int| 0 <= i < now.1.len() implies !is_white_space(#[trigger] now.1[i]) by {
            if !is_white_space(s[n - 1]) && i < cur.len() {
                assert(now.1[i] == cur[i]);
            }
        }
    }
}

/// No word holds a white-space character.
pub proof fn lemma_words_have_no_white_space(s: Seq<char>)
    ensures
        forall|k: int, i: int|
            0 <= k < split_ws(s).len() && 0 <= i < split_ws(s)[k].len() ==> !is_white_space(
                #[trigger] split_ws(s)[k][i],
            ),
{
    lemma_ws_scan_no_white(s, s.len());
    let (done, cur) = ws_scan(s, s.len());
    assert forall|k: int, i: int|
        0 <= k < split_ws(s).len() && 0 <= i < split_ws(s)[k].len() implies !is_white_space(
            #[trigger] split_ws(s)[k][i],
        ) by {
        if k < done.len() {
            assert(split_ws(s)[k] == done[k]);
        } else {
            assert(split_ws(s)[k] == cur);
        }
    }
}

/// The runs that `ws_scan` has completed after `n` characters: where each
/// word starts and ends, returned as witnesses.
proof fn ws_scan_runs(s: Seq<char>, n: nat) -> (pos: Seq<(int, int)>)
    requires
        n <= s.len(),
    ensures
        pos.len() == ws_scan(s, n).0.len(),
        forall|k: int|
            0 <= k < pos.len() ==> {
                &&& 0 <= (#[trigger] pos[k]).0 < pos[k].1 < n
                &&& ws_scan(s, n).0[k] == s.subrange(pos[k].0, pos[k].1)
                &&& (pos[k].0 == 0 || is_white_space(s[pos[k].0 - 1]))
                &&& is_white_space(s[pos[k].1])
            },
        forall|k: int| 0 < k < pos.len() ==> pos[k - 1].1 < (#[trigger] pos[k]).0,
        ws_scan(s, n).1.len() <= n,
        ws_scan(s, n).1 == s.subrange(n - ws_scan(s, n).1.len(), n as int),
        n - ws_scan(s, n).1.len() == 0 || is_white_space(s[n - ws_scan(s, n).1.len() - 1]),
        pos.len() > 0 ==> pos.last().1 < n - ws_scan(s, n).1.len(),
        forall|i: int|
            0 <= i < n - ws_scan(s, n).1.len() && !is_white_space(#[trigger] s[i]) ==> exists|k: int|
                0 <= k < pos.len() && (#[trigger] pos[k]).0 <= i < pos[k].1,
    decreases n,
{
    if n == 0 {
        Seq::empty()
    } else {
        let m = (n - 1) as nat;
        let pos0 = ws_scan_runs(s, m);
        let done = ws_scan(s, m).0;
        let cur = ws_scan(s, m).1;
        let c = s[m as int];
        let start = m - cur.len();
        if is_white_space(c) {
            if cur.len() > 0 {
                assert(ws_scan(s, n) == (done.push(cur), Seq::<char>::empty()));
                let pos = pos0.push((start, m as int));
                assert forall|k: int|
                    0 <= k < pos.len() implies {
                        &&& 0 <= (#[trigger] pos[k]).0 < pos[k].1 < n
                        &&& ws_scan(s, n).0[k] == s.subrange(pos[k].0, pos[k].1)
                        &&& (pos[k].0 == 0 || is_white_space(s[pos[k].0 - 1]))
                        &&& is_white_space(s[pos[k].1])
                    } by {
                    if k < pos0.len() {
                        assert(pos[k] == pos0[k]);
                        assert(ws_scan(s, n).0[k] == done[k]);
                    } else {
                        assert(pos[k] == (start, m as int));
                        assert(ws_scan(s, n).0[k] == cur);
                    }
                }
                assert forall|i: int|
                    0 <= i < n - ws_scan(s, n).1.len() && !is_white_space(#[trigger] s[i]) implies exists|k: int|
                    0 <= k < pos.len() && (#[trigger] pos[k]).0 <= i < pos[k].1 by {
                    if i < start {
                        let k = choose|k: int| 0 <= k < pos0.len() && (#[trigger] pos0[k]).0 <= i < pos0[k].1;
                        assert(pos[k] == pos0[k]);
                    } else {
                        assert(i < m);
                        assert(pos[pos.len() - 1] == (start, m as int));
                    }
                }
                assert forall|k: int| 0 < k < pos.len() implies pos[k - 1].1 < (#[trigger] pos[k]).0 by {
                    if k < pos.len() - 1 {
                        assert(pos[k] == pos0[k]);
                        assert(pos[k - 1] == pos0[k - 1]);
                    } else {
                        assert(pos[k - 1] == pos0.last());
                    }
                }
                assert(ws_scan(s, n).1 =~= s.subrange(n as int, n as int));
                pos
            } else {
                assert(ws_scan(s, n) == (done, Seq::<char>::empty()));
                assert(ws_scan(s, n).1 =~= s.subrange(n as int, n as int));
                assert forall|i: int|
                    0 <= i < n - ws_scan(s, n).1.len() && !is_white_space(#[trigger] s[i]) implies exists|k: int|
                    0 <= k < pos0.len() && (#[trigger] pos0[k]).0 <= i < pos0[k].1 by {
                    assert(i < start);
                }
                pos0
            }
        } else {
            assert(ws_scan(s, n) == (done, cur.push(c)));
            assert(ws_scan(s, n).1 =~= s.subrange(start as int, n as int));
            pos0
        }
    }
}

/// The words are exactly the maximal runs of characters that are not white
/// space, in order: each word is a stretch of `s` with white space (or an end
/// of `s`) on both sides and none inside, the stretches come one after the
/// other with white space between them, and every other character of `s` is
/// white space.
pub proof fn lemma_words_are_runs(s: Seq<char>) -> (pos: Seq<(int, int)>)
    ensures
        pos.len() == split_ws(s).len(),
        forall|k: int|
            0 <= k < pos.len() ==> {
                &&& 0 <= (#[trigger] pos[k]).0 < pos[k].1 <= s.len()
                &&& split_ws(s)[k] == s.subrange(pos[k].0, pos[k].1)
                &&& (pos[k].0 == 0 || is_white_space(s[pos[k].0 - 1]))
                &&& (pos[k].1 == s.len() || is_white_space(s[pos[k].1]))
                &&& forall|i: int| pos[k].0 <= i < pos[k].1 ==> !is_white_space(#[trigger] s[i])
            },
        forall|k: int| 0 < k < pos.len() ==> pos[k - 1].1 < (#[trigger] pos[k]).0,
        forall|i: int|
            0 <= i < s.len() && !is_white_space(#[trigger] s[i]) ==> exists|k: int|
                0 <= k < pos.len() && (#[trigger] pos[k]).0 <= i < pos[k].1,
{
    let n = s.len();
    let pos0 = ws_scan_runs(s, n);
    let done = ws_scan(s, n).0;
    let cur = ws_scan(s, n).1;
    lemma_words_have_no_white_space(s);
    assert(split_ws(s) == if cur.len() > 0 {
        done.push(cur)
    } else {
        done
    });
    let pos = if cur.len() > 0 {
        pos0.push((n - cur.len(), n as int))
    } else {
        pos0
    };
    assert forall|k: int| 0 <= k < pos.len() implies {
        &&& 0 <= (#[trigger] pos[k]).0 < pos[k].1 <= s.len()
        &&& split_ws(s)[k] == s.subrange(pos[k].0, pos[k].1)
        &&& (pos[k].0 == 0 || is_white_space(s[pos[k].0 - 1]))
        &&& (pos[k].1 == s.len() || is_white_space(s[pos[k].1]))
        &&& forall|i: int| pos[k].0 <= i < pos[k].1 ==> !is_white_space(#[trigger] s[i])
    } by {
        if k < pos0.len() {
            assert(pos[k] == pos0[k]);
            assert(split_ws(s)[k] == done[k]);
        } else {
            assert(split_ws(s)[k] == cur);
        }
        assert forall|i: int| pos[k].0 <= i < pos[k].1 implies !is_white_space(#[trigger] s[i]) by {
            assert(s[i] == split_ws(s)[k][i - pos[k].0]);
        }
    }
    assert forall|k: int| 0 < k < pos.len() implies pos[k - 1].1 < (#[trigger] pos[k]).0 by {
        if k < pos0.len() {
            assert(pos[k] == pos0[k]);
            assert(pos[k - 1] == pos0[k - 1]);
        } else {
            assert(pos[k - 1] == pos0.last());
        }
    }
    assert forall|i: int| 0 <= i < s.len() && !is_white_space(#[trigger] s[i]) implies exists|k: int|
        0 <= k < pos.len() && (#[trigger] pos[k]).0 <= i < pos[k].1 by {
        if i < n - cur.len() {
            let k = choose|k: int| 0 <= k < pos0.len() && (#[trigger] pos0[k]).0 <= i < pos0[k].1;
            assert(pos[k] == pos0[k]);
        } else {
            assert(pos[pos.len() - 1] == (n - cur.len(), n as int));
        }
    }
    pos
}

/// The views of a vector of string slices.
pub open spec fn str_views(v: Seq<&str>) -> Seq<Seq<char>> {
    v.map_values(|w: &str| w@)
}

/// The words of `s`, as slices of it, as `str::split_whitespace` gives them.
pub fn split_whitespace<'a>(s: &'a str) -> (v: Vec<&'a str>)
    ensures
        str_views(v@) == split_ws(s@),
{
    let n = s.unicode_len();
    let mut v: Vec<&'a str> = Vec::new();
    let mut start: usize = 0;
    let mut i: usize = 0;
    while i < n
        invariant
            n == s@.len(),
            start <= i <= n,
            str_views(v@) == ws_scan(s@, i as nat).0,
            s@.subrange(start as int, i as int) == ws_scan(s@, i as nat).1,
        decreases n - i,
    {
        let c = s.get_char(i);
        let ghost prev = v@;
        if is_whitespace(c) {
            if start < i {
                let w = s.substring_char(start, i);
                v.push(w);
                assert(str_views(v@) =~= str_views(prev).push(w@));
            }
            start = i + 1;
        } else {
            assert(s@.subrange(start as int, i + 1) =~= s@.subrange(start as int, i as int).push(c));
        }
        i = i + 1;
    }
    if start < n {
        let ghost prev = v@;
        let w = s.substring_char(start, n);
        v.push(w);
        assert(str_views(v@) =~= str_views(prev).push(w@));
    }
    v
}

/// Whether `a` and `b` hold the same characters.
pub fn same_str(a: &str, b: &str) -> (r: bool)
    ensures
        r == (a@ == b@),
{
    let n = a.unicode_len();
    if n != b.unicode_len() {
        return false;
    }
    let mut i: usize = 0;
    while i < n
        invariant
            n == a@.len(),
            n == b@.len(),
            i <= n,
            forall|k: int| 0 <= k < i ==> a@[k] == b@[k],
        decreases n - i,
    {
        if a.get_char(i) != b.get_char(i) {
            return false;
        }
        i = i + 1;
    }
    assert(a@ =~= b@);
    true
}

/// The number of bytes of `c` in UTF-8.
pub open spec fn utf8_width(c: char) -> nat {
    if (c as u32) < 0x80 {
        1
    } else if (c as u32) < 0x800 {
        2
    } else if (c as u32) < 0x10000 {
        3
    } else {
        4
    }
}

/// The number of bytes of `w` in UTF-8.
pub open spec fn utf8_len(w: Seq<char>) -> nat
    decreases w.len(),
{
    if w.len() == 0 {
        0
    } else {
        utf8_len(w.drop_last()) + utf8_width(w.last())
    }
}

/// Appending a character appends its encoding.
proof fn lemma_encode_push(a: Seq<char>, c: char)
    ensures
        vstd::utf8::encode_utf8(a.push(c)).len() == vstd::utf8::encode_utf8(a).len()
            + vstd::utf8::encode_scalar(c as u32).len(),
    decreases a.len(),
{
    if a.len() > 0 {
        assert(a.push(c).drop_first() =~= a.drop_first().push(c));
        assert(a.push(c)[0] == a[0]);
        lemma_encode_push(a.drop_first(), c);
        assert(vstd::utf8::encode_utf8(a.push(c)) == vstd::utf8::encode_scalar(a[0] as u32)
            + vstd::utf8::encode_utf8(a.drop_first().push(c)));
    } else {
        assert(a.push(c).drop_first() =~= Seq::<char>::empty());
        assert(a.push(c)[0] == c);
        assert(vstd::utf8::encode_utf8(Seq::<char>::empty()) =~= Seq::<u8>::empty());
        assert(vstd::utf8::encode_utf8(a) =~= Seq::<u8>::empty());
        assert(vstd::utf8::encode_utf8(a.push(c)) == vstd::utf8::encode_scalar(c as u32)
            + vstd::utf8::encode_utf8(Seq::<char>::empty()));
    }
}

/// The width of a character is the length of its UTF-8 encoding.
pub proof fn lemma_utf8_width_is_encoding_len(c: char)
    ensures
        utf8_width(c) == vstd::utf8::encode_scalar(c as u32).len(),
{
    broadcast use vstd::utf8::char_is_scalar;

    assert(vstd::utf8::is_scalar(c as u32));
}

/// `utf8_len` is the number of bytes of the UTF-8 encoding, the length that
/// `str::len` reports.
pub proof fn lemma_utf8_len_is_encoding_len(w: Seq<char>)
    ensures
        utf8_len(w) == vstd::utf8::encode_utf8(w).len(),
    decreases w.len(),
{
    if w.len() > 0 {
        lemma_utf8_len_is_encoding_len(w.drop_last());
        lemma_encode_push(w.drop_last(), w.last());
        lemma_utf8_width_is_encoding_len(w.last());
        assert(w.drop_last().push(w.last()) =~= w);
    } else {
        assert(vstd::utf8::encode_utf8(w) =~= Seq::<u8>::empty());
    }
}

fn char_width(c: char) -> (n: u128)
    ensures
        n == utf8_width(c),
{
    let code = c as u32;
    if code < 0x80 {
        1
    } else if code < 0x800 {
        2
    } else if code < 0x10000 {
        3
    } else {
        4
    }
}

/// The number of bytes of `w` in UTF-8.
fn byte_len(w: &str) -> (n: u128)
    ensures
        n == utf8_len(w@),
{
    let len = w.unicode_len();
    let mut n: u128 = 0;
    let mut i: usize = 0;
    while i < len
        invariant
            len == w@.len(),
            i <= len,
            n == utf8_len(w@.take(i as int)),
            n <= 4 * i,
        decreases len - i,
    {
        let c = w.get_char(i);
        assert(w@.take(i + 1).drop_last() =~= w@.take(i as int));
        n = n + char_width(c);
        i = i + 1;
    }
    assert(w@.take(len as int) =~= w@);
    n
}

/// The first of the longest words of `s`, by length in bytes; empty when `s`
/// has no word.
pub fn longest_word(s: &str) -> (r: &str)
    ensures
        split_ws(s@).len() == 0 ==> r@ == Seq::<char>::empty(),
        split_ws(s@).len() > 0 ==> exists|k: int|
            {
                &&& 0 <= k < split_ws(s@).len()
                &&& r@ == split_ws(s@)[k]
                &&& forall|j: int|
                    0 <= j < split_ws(s@).len() ==> utf8_len(#[trigger] split_ws(s@)[j])
                        <= utf8_len(split_ws(s@)[k])
                &&& forall|j: int| 0 <= j < k ==> utf8_len(#[trigger] split_ws(s@)[j]) < utf8_len(
                    split_ws(s@)[k],
                )
            },
{
    let words = split_whitespace(s);
    let ghost ws = split_ws(s@);
    let mut longest: &str = s.substring_char(0, 0);
    let mut longest_len: u128 = 0;
    let ghost mut k: int = 0;
    let mut i: usize = 0;
    while i < words.len()
        invariant
            str_views(words@) == ws,
            ws == split_ws(s@),
            i <= words@.len(),
            longest_len == utf8_len(longest@),
            i == 0 ==> longest@ == Seq::<char>::empty(),
            i > 0 ==> {
                &&& 0 <= k < i
                &&& longest@ == ws[k]
                &&& forall|j: int| 0 <= j < i ==> utf8_len(#[trigger] ws[j]) <= utf8_len(ws[k])
                &&& forall|j: int| 0 <= j < k ==> utf8_len(#[trigger] ws[j]) < utf8_len(ws[k])
            },
        decreases words@.len() - i,
    {
        let word = words[i];
        assert(word@ == ws[i as int]);
        let n = byte_len(word);
        proof {
            lemma_words_nonempty(s@);
            assert(ws[i as int].len() > 0);
            assert(utf8_len(word@) > 0);
        }
        if n > longest_len {
            longest = word;
            longest_len = n;
            proof {
                k = i as int;
            }
        }
        i = i + 1;
    }
    longest
}

} // verus!

use vstd::prelude::*;
use vstd::utf8::encode_utf8;

verus! {

/// Decimal digits of a natural number, most significant first (no sign, no padding).
pub open spec fn decimal(n: nat) -> Seq<char>
    decreases n,
{
    if n < 10 {
        seq![digit_char(n)]
    } else {
        decimal(n / 10).push(digit_char(n % 10))
    }
}

/// The ASCII digit for a value below ten.
pub open spec fn digit_char(d: nat) -> char {
    if d == 0 { '0' }
    else if d == 1 { '1' }
    else if d == 2 { '2' }
    else if d == 3 { '3' }
    else if d == 4 { '4' }
    else if d == 5 { '5' }
    else if d == 6 { '6' }
    else if d == 7 { '7' }
    else if d == 8 { '8' }
    else { '9' }
}

/// Text of the label given to an unlabelled key: `key-` followed by its index in decimal.
pub open spec fn default_label(idx: nat) -> Seq<char> {
    seq!['k', 'e', 'y', '-'] + decimal(idx)
}

/// The default label of the key at `idx` (see [`default_label`]).
pub fn format_default_label(idx: usize) -> (s: String)
    ensures
        s@ == default_label(idx as nat),
{
    let mut s = "key-".to_owned();
    s.append(decimal_string(idx as u64).as_str());
    proof {
        reveal_strlit("key-");
        assert("key-"@ =~= seq!['k', 'e', 'y', '-']);
    }
    s
}

/// Lexicographic order on byte strings, the order of `str` and `String` in Rust.
pub open spec fn bytes_lt(a: Seq<u8>, b: Seq<u8>) -> bool
    decreases a.len(),
{
    if b.len() == 0 {
        false
    } else if a.len() == 0 {
        true
    } else if a[0] < b[0] {
        true
    } else if a[0] > b[0] {
        false
    } else {
        bytes_lt(a.drop_first(), b.drop_first())
    }
}

/// Order of texts by their UTF-8 bytes.
pub open spec fn text_lt(a: Seq<char>, b: Seq<char>) -> bool {
    bytes_lt(encode_utf8(a), encode_utf8(b))
}

/// No byte string is below itself.
pub proof fn lemma_bytes_lt_irreflexive(a: Seq<u8>)
    ensures
        !bytes_lt(a, a),
    decreases a.len(),
{
    if a.len() > 0 {
        lemma_bytes_lt_irreflexive(a.drop_first());
    }
}

/// The byte order is asymmetric.
pub proof fn lemma_bytes_lt_asymmetric(a: Seq<u8>, b: Seq<u8>)
    requires
        bytes_lt(a, b),
    ensures
        !bytes_lt(b, a),
    decreases a.len(),
{
    if a.len() > 0 && b.len() > 0 && a[0] == b[0] {
        lemma_bytes_lt_asymmetric(a.drop_first(), b.drop_first());
    }
}

/// The byte order is transitive.
pub proof fn lemma_bytes_lt_transitive(a: Seq<u8>, b: Seq<u8>, c: Seq<u8>)
    requires
        bytes_lt(a, b),
        bytes_lt(b, c),
    ensures
        bytes_lt(a, c),
    decreases a.len(),
{
    if a.len() > 0 && b.len() > 0 && c.len() > 0 && a[0] == b[0] && b[0] == c[0] {
        lemma_bytes_lt_transitive(a.drop_first(), b.drop_first(), c.drop_first());
    }
}

/// Two different byte strings are ordered one way or the other.
pub proof fn lemma_bytes_lt_total(a: Seq<u8>, b: Seq<u8>)
    requires
        a != b,
    ensures
        bytes_lt(a, b) || bytes_lt(b, a),
    decreases a.len(),
{
    if a.len() > 0 && b.len() > 0 && a[0] == b[0] {
        if a.drop_first() == b.drop_first() {
            assert(a =~= seq![a[0]] + a.drop_first());
            assert(b =~= seq![b[0]] + b.drop_first());
        }
        lemma_bytes_lt_total(a.drop_first(), b.drop_first());
    } else if a.len() == 0 && b.len() == 0 {
        assert(a =~= b);
    }
}

/// Different texts have different encodings, so they are ordered one way or the other.
pub proof fn lemma_text_lt_total(a: Seq<char>, b: Seq<char>)
    requires
        a != b,
    ensures
        text_lt(a, b) || text_lt(b, a),
{
    vstd::utf8::encode_utf8_decode_utf8(a);
    vstd::utf8::encode_utf8_decode_utf8(b);
    lemma_bytes_lt_total(encode_utf8(a), encode_utf8(b));
}

/// Whether byte string `a` sorts before `b`.
pub fn bytes_less(a: &[u8], b: &[u8]) -> (r: bool)
    ensures
        r == bytes_lt(a@, b@),
{
    let mut i: usize = 0;
    assert(a@.skip(0) =~= a@);
    assert(b@.skip(0) =~= b@);
    while i < a.len() && i < b.len()
        invariant
            i <= a@.len(),
            i <= b@.len(),
            bytes_lt(a@, b@) == bytes_lt(a@.skip(i as int), b@.skip(i as int)),
        decreases a@.len() - i,
    {
        if a[i] < b[i] {
            return true;
        }
        if a[i] > b[i] {
            return false;
        }
        assert(a@.skip(i as int).drop_first() =~= a@.skip(i + 1));
        assert(b@.skip(i as int).drop_first() =~= b@.skip(i + 1));
        i = i + 1;
    }
    i < b.len()
}

/// Whether text `a` sorts before `b` in Rust's `str` order (by UTF-8 bytes).
pub fn text_less(a: &str, b: &str) -> (r: bool)
    ensures
        r == text_lt(a@, b@),
{
    bytes_less(a.as_bytes(), b.as_bytes())
}

/// Whether `n` occurs in `h` at byte offset `i`.
pub open spec fn bytes_at(h: Seq<u8>, n: Seq<u8>, i: int) -> bool {
    0 <= i && i + n.len() <= h.len() && h.subrange(i, i + n.len()) == n
}

/// Whether text `n` occurs in text `h` (as `str::contains` finds it, by UTF-8 bytes).
pub open spec fn text_contains(h: Seq<char>, n: Seq<char>) -> bool {
    exists|i: int| bytes_at(encode_utf8(h), encode_utf8(n), i)
}

/// Whether text `h` begins with text `n` (as `str::starts_with` checks it).
pub open spec fn text_starts_with(h: Seq<char>, n: Seq<char>) -> bool {
    bytes_at(encode_utf8(h), encode_utf8(n), 0)
}

/// Whether `n` occurs in `h` at byte offset `i`.
fn bytes_match_at(h: &[u8], n: &[u8], i: usize) -> (r: bool)
    requires
        i + n@.len() <= h@.len(),
    ensures
        r == bytes_at(h@, n@, i as int),
{
    let hl = h.len();
    let mut k: usize = 0;
    while k < n.len()
        invariant
            hl == h@.len(),
            k <= n@.len(),
            i + n@.len() <= h@.len(),
            forall|j: int| 0 <= j < k ==> h@[i + j] == n@[j],
        decreases n@.len() - k,
    {
        if h[i + k] != n[k] {
            assert(h@.subrange(i as int, i + n@.len())[k as int] != n@[k as int]);
            return false;
        }
        k = k + 1;
    }
    assert(h@.subrange(i as int, i + n@.len()) =~= n@);
    true
}

/// Whether text `n` occurs in text `h`.
pub fn contains_text(h: &str, n: &str) -> (r: bool)
    ensures
        r == text_contains(h@, n@),
{
    let hb = h.as_bytes();
    let nb = n.as_bytes();
    if nb.len() > hb.len() {
        assert forall|i: int| !bytes_at(encode_utf8(h@), encode_utf8(n@), i) by {}
        return false;
    }
    let last = hb.len() - nb.len();
    let mut i: usize = 0;
    while i < last
        invariant
            last == hb@.len() - nb@.len(),
            i <= last,
            nb@.len() <= hb@.len(),
            hb@ == encode_utf8(h@),
            nb@ == encode_utf8(n@),
            forall|j: int| 0 <= j < i ==> !bytes_at(hb@, nb@, j),
        decreases last - i,
    {
        if bytes_match_at(hb, nb, i) {
            return true;
        }
        i = i + 1;
    }
    let r = bytes_match_at(hb, nb, last);
    proof {
        if !r {
            assert forall|j: int| !bytes_at(hb@, nb@, j) by {
                if 0 <= j && j + nb@.len() <= hb@.len() {
                    assert(j <= last);
                }
            }
        }
    }
    r
}

/// Whether text `h` begins with text `n`.
pub fn starts_with_text(h: &str, n: &str) -> (r: bool)
    ensures
        r == text_starts_with(h@, n@),
{
    let hb = h.as_bytes();
    let nb = n.as_bytes();
    if nb.len() > hb.len() {
        return false;
    }
    bytes_match_at(hb, nb, 0)
}

/// Whether two texts are equal.
pub fn text_eq(a: &str, b: &str) -> (r: bool)
    ensures
        r == (a@ == b@),
{
    let ab = a.as_bytes();
    let bb = b.as_bytes();
    proof {
        vstd::utf8::encode_utf8_decode_utf8(a@);
        vstd::utf8::encode_utf8_decode_utf8(b@);
    }
    if ab.len() != bb.len() {
        return false;
    }
    let r = bytes_match_at(ab, bb, 0);
    proof {
        assert(ab@.subrange(0, bb@.len() as int) =~= ab@);
    }
    r
}

/// The characters of `s`, in order.
pub fn chars_of(s: &str) -> (r: Vec<char>)
    ensures
        r@ == s@,
{
    let mut out: Vec<char> = Vec::new();
    for c in it: s.chars()
        invariant
            out@ == it.seq().take(it.index() as int),
    {
        out.push(c);
    }
    out
}

/// Characters with the Unicode `White_Space` property, which `char::is_whitespace` tests.
pub open spec fn white_space(c: char) -> bool {
    ||| '\t' <= c <= '\r'
    ||| c == ' '
    ||| c == '\u{85}'
    ||| c == '\u{a0}'
    ||| c == '\u{1680}'
    ||| '\u{2000}' <= c <= '\u{200a}'
    ||| c == '\u{2028}'
    ||| c == '\u{2029}'
    ||| c == '\u{202f}'
    ||| c == '\u{205f}'
    ||| c == '\u{3000}'
}

/// Whether `c` is white space (see [`white_space`]).
pub fn is_white_space(c: char) -> (r: bool)
    ensures
        r == white_space(c),
{
    ('\t' <= c && c <= '\r') || c == ' ' || c == '\u{85}' || c == '\u{a0}' || c == '\u{1680}'
        || ('\u{2000}' <= c && c <= '\u{200a}') || c == '\u{2028}' || c == '\u{2029}'
        || c == '\u{202f}' || c == '\u{205f}' || c == '\u{3000}'
}

/// Scan of `s` for words: the words completed so far and the word being read.
pub open spec fn ws_scan(s: Seq<char>) -> (Seq<Seq<char>>, Seq<char>)
    decreases s.len(),
{
    if s.len() == 0 {
        (Seq::empty(), Seq::empty())
    } else {
        let (done, cur) = ws_scan(s.drop_last());
        let c = s.last();
        if white_space(c) {
            if cur.len() > 0 { (done.push(cur), Seq::empty()) } else { (done, Seq::empty()) }
        } else {
            (done, cur.push(c))
        }
    }
}

/// The maximal runs of non-white-space characters of `s`, in order (`str::split_whitespace`).
pub open spec fn ws_words(s: Seq<char>) -> Seq<Seq<char>> {
    let (done, cur) = ws_scan(s);
    if cur.len() > 0 { done.push(cur) } else { done }
}

/// Words joined by single spaces, as `split_whitespace().collect::<Vec<_>>().join(" ")`
/// writes them.
pub open spec fn join_words(ws: Seq<Seq<char>>) -> Seq<char>
    decreases ws.len(),
{
    if ws.len() == 0 {
        Seq::empty()
    } else if ws.len() == 1 {
        ws[0]
    } else {
        join_words(ws.drop_last()) + seq![' '] + ws.last()
    }
}

/// A word: non-empty, without white space.
pub open spec fn is_word(w: Seq<char>) -> bool {
    w.len() > 0 && forall|i: int| 0 <= i < w.len() ==> !white_space(#[trigger] w[i])
}

/// Reading a word's characters extends the word being read.
proof fn lemma_scan_word(s: Seq<char>, w: Seq<char>)
    requires
        forall|i: int| 0 <= i < w.len() ==> !white_space(#[trigger] w[i]),
    ensures
        ws_scan(s + w) == (ws_scan(s).0, ws_scan(s).1 + w),
    decreases w.len(),
{
    if w.len() == 0 {
        assert(s + w =~= s);
        assert(ws_scan(s).1 + w =~= ws_scan(s).1);
    } else {
        lemma_scan_word(s, w.drop_last());
        assert((s + w).drop_last() =~= s + w.drop_last());
        assert((s + w).last() == w.last());
        assert(!white_space(w[w.len() - 1]));
        assert(ws_scan(s).1 + w.drop_last() + seq![w.last()] =~= ws_scan(s).1 + w);
        assert((ws_scan(s).1 + w.drop_last()).push(w.last()) =~= ws_scan(s).1 + w);
    }
}

/// The words of a text are words.
proof fn lemma_scan_words(s: Seq<char>)
    ensures
        forall|k: int| 0 <= k < ws_scan(s).0.len() ==> is_word(#[trigger] ws_scan(s).0[k]),
        forall|i: int| 0 <= i < ws_scan(s).1.len() ==> !white_space(#[trigger] ws_scan(s).1[i]),
    decreases s.len(),
{
    if s.len() > 0 {
        lemma_scan_words(s.drop_last());
        let (done, cur) = ws_scan(s.drop_last());
        if !white_space(s.last()) {
            assert forall|i: int| 0 <= i < cur.push(s.last()).len() implies !white_space(#[trigger] cur.push(s.last())[i]) by {
                if i < cur.len() { assert(cur.push(s.last())[i] == cur[i]); }
            }
        } else if cur.len() > 0 {
            assert forall|k: int| 0 <= k < done.push(cur).len() implies is_word(#[trigger] done.push(cur)[k]) by {
                if k < done.len() { assert(done.push(cur)[k] == done[k]); }
            }
        }
    }
}

/// The words of a text are words.
pub proof fn lemma_words_are_words(s: Seq<char>)
    ensures
        forall|k: int| 0 <= k < ws_words(s).len() ==> is_word(#[trigger] ws_words(s)[k]),
{
    lemma_scan_words(s);
    let (done, cur) = ws_scan(s);
    if cur.len() > 0 {
        assert forall|k: int| 0 <= k < done.push(cur).len() implies is_word(#[trigger] done.push(cur)[k]) by {
            if k < done.len() { assert(done.push(cur)[k] == done[k]); }
        }
    }
}

/// Scanning words joined by spaces stops inside the last word, with the others read.
proof fn lemma_scan_join(ws: Seq<Seq<char>>)
    requires
        ws.len() > 0,
        forall|k: int| 0 <= k < ws.len() ==> is_word(#[trigger] ws[k]),
    ensures
        ws_scan(join_words(ws)) == (ws.drop_last(), ws.last()),
    decreases ws.len(),
{
    if ws.len() == 1 {
        lemma_scan_word(Seq::empty(), ws[0]);
        assert(Seq::<char>::empty() + ws[0] =~= ws[0]);
        assert(ws_scan(Seq::<char>::empty()) == (Seq::<Seq<char>>::empty(), Seq::<char>::empty()));
        assert(Seq::<char>::empty() + ws[0] =~= ws[0]);
        assert(ws.drop_last() =~= Seq::<Seq<char>>::empty());
    } else {
        let front = ws.drop_last();
        assert forall|k: int| 0 <= k < front.len() implies is_word(#[trigger] front[k]) by {
            assert(front[k] == ws[k]);
        }
        lemma_scan_join(front);
        let a = join_words(front);
        let sp = a + seq![' '];
        assert(sp.drop_last() =~= a);
        assert(sp.last() == ' ');
        assert(white_space(' '));
        assert(front.last().len() > 0);
        assert(front.drop_last().push(front.last()) =~= front);
        assert(ws_scan(sp) == (front, Seq::<char>::empty()));
        let w = ws.last();
        assert(is_word(ws[ws.len() - 1]));
        lemma_scan_word(sp, w);
        assert(Seq::<char>::empty() + w =~= w);
    }
}

/// Joining the words of a text by single spaces gives a text with the same words.
pub proof fn law_join_keeps_words(s: Seq<char>)
    ensures
        ws_words(join_words(ws_words(s))) == ws_words(s),
{
    let ws = ws_words(s);
    lemma_words_are_words(s);
    if ws.len() == 0 {
        assert(ws_scan(Seq::<char>::empty()) == (Seq::<Seq<char>>::empty(), Seq::<char>::empty()));
        assert(ws_words(Seq::<char>::empty()) =~= Seq::<Seq<char>>::empty());
    } else {
        lemma_scan_join(ws);
        assert(ws.last().len() > 0);
        assert(ws.drop_last().push(ws.last()) =~= ws);
    }
}

/// The words of `s` (see [`ws_words`]).
pub fn split_words(s: &str) -> (w: Vec<Vec<char>>)
    ensures
        w@.len() == ws_words(s@).len(),
        forall|k: int| 0 <= k < w@.len() ==> #[trigger] w@[k]@ == ws_words(s@)[k],
{
    let cs = chars_of(s);
    let mut done: Vec<Vec<char>> = Vec::new();
    let mut cur: Vec<char> = Vec::new();
    let mut i: usize = 0;
    while i < cs.len()
        invariant
            cs@ == s@,
            i <= cs@.len(),
            done@.len() == ws_scan(s@.take(i as int)).0.len(),
            forall|k: int| 0 <= k < done@.len() ==> #[trigger] done@[k]@ == ws_scan(s@.take(i as int)).0[k],
            cur@ == ws_scan(s@.take(i as int)).1,
        decreases cs@.len() - i,
    {
        let c = cs[i];
        assert(s@.take(i + 1).drop_last() =~= s@.take(i as int));
        if is_white_space(c) {
            if cur.len() > 0 {
                let ghost before = done@;
                done.push(cur);
                assert forall|k: int| 0 <= k < done@.len() implies #[trigger] done@[k]@ == ws_scan(s@.take(i + 1)).0[k] by {
                    if k < before.len() {
                        assert(done@[k] == before[k]);
                    }
                }
            }
            cur = Vec::new();
        } else {
            cur.push(c);
        }
        i = i + 1;
    }
    assert(s@.take(i as int) =~= s@);
    if cur.len() > 0 {
        let ghost before = done@;
        done.push(cur);
        assert forall|k: int| 0 <= k < done@.len() implies #[trigger] done@[k]@ == ws_words(s@)[k] by {
            if k < before.len() {
                assert(done@[k] == before[k]);
            }
        }
    }
    done
}

/// The words of `s` as strings (see [`ws_words`]), as `str::split_whitespace` yields them.
pub fn split_whitespace_strs(s: &str) -> (r: Vec<String>)
    ensures
        r@.len() == ws_words(s@).len(),
        forall|k: int| 0 <= k < r@.len() ==> #[trigger] r@[k]@ == ws_words(s@)[k],
{
    let n = s.unicode_len();
    let mut out: Vec<String> = Vec::new();
    let mut start: usize = 0;
    let mut in_word = false;
    let mut i: usize = 0;
    while i < n
        invariant
            n == s@.len(),
            i <= n,
            start <= i,
            out@.len() == ws_scan(s@.take(i as int)).0.len(),
            forall|k: int| 0 <= k < out@.len() ==> #[trigger] out@[k]@ == ws_scan(s@.take(i as int)).0[k],
            ws_scan(s@.take(i as int)).1 == if in_word { s@.subrange(start as int, i as int) } else { Seq::empty() },
            in_word ==> start < i,
        decreases n - i,
    {
        let c = s.get_char(i);
        assert(s@.take(i + 1).drop_last() =~= s@.take(i as int));
        assert(s@.take(i + 1).last() == c);
        if is_white_space(c) {
            if in_word {
                let w = s.substring_char(start, i).to_owned();
                let ghost before = out@;
                out.push(w);
                assert forall|k: int| 0 <= k < out@.len() implies #[trigger] out@[k]@ == ws_scan(s@.take(i + 1)).0[k] by {
                    if k < before.len() {
                        assert(out@[k] == before[k]);
                    }
                }
            }
            in_word = false;
        } else {
            if !in_word {
                start = i;
                in_word = true;
                assert(s@.subrange(start as int, i + 1) =~= seq![c]);
                assert(Seq::<char>::empty().push(c) =~= seq![c]);
            } else {
                assert(s@.subrange(start as int, i + 1) =~= s@.subrange(start as int, i as int).push(c));
            }
        }
        i = i + 1;
    }
    assert(s@.take(i as int) =~= s@);
    if in_word {
        let w = s.substring_char(start, n).to_owned();
        let ghost before = out@;
        out.push(w);
        assert forall|k: int| 0 <= k < out@.len() implies #[trigger] out@[k]@ == ws_words(s@)[k] by {
            if k < before.len() {
                assert(out@[k] == before[k]);
            }
        }
    }
    out
}

/// Number of white-space characters that `s` begins with.
pub open spec fn lead_ws(s: Seq<char>) -> nat
    decreases s.len(),
{
    if s.len() > 0 && white_space(s[0]) { 1 + lead_ws(s.subrange(1, s.len() as int)) } else { 0 }
}

/// Number of white-space characters that `s` ends with.
pub open spec fn trail_ws(s: Seq<char>) -> nat
    decreases s.len(),
{
    if s.len() > 0 && white_space(s.last()) { 1 + trail_ws(s.drop_last()) } else { 0 }
}

/// `s` without white space at either end (`str::trim`).
pub open spec fn trim_spec(s: Seq<char>) -> Seq<char> {
    let a = lead_ws(s);
    if a >= s.len() { Seq::empty() } else { s.subrange(a as int, s.len() - trail_ws(s)) }
}

/// The leading white space is a prefix of white space.
proof fn lemma_lead_ws(s: Seq<char>)
    ensures
        lead_ws(s) <= s.len(),
        forall|k: int| 0 <= k < lead_ws(s) ==> white_space(#[trigger] s[k]),
        lead_ws(s) < s.len() ==> !white_space(s[lead_ws(s) as int]),
    decreases s.len(),
{
    if s.len() > 0 && white_space(s[0]) {
        let t = s.subrange(1, s.len() as int);
        lemma_lead_ws(t);
        assert forall|k: int| 0 <= k < lead_ws(s) implies white_space(#[trigger] s[k]) by {
            if k > 0 {
                assert(s[k] == t[k - 1]);
            }
        }
        if lead_ws(s) < s.len() {
            assert(s[lead_ws(s) as int] == t[lead_ws(t) as int]);
        }
    }
}

/// The trailing white space is a suffix of white space.
proof fn lemma_trail_ws(s: Seq<char>)
    ensures
        trail_ws(s) <= s.len(),
        forall|k: int| s.len() - trail_ws(s) <= k < s.len() ==> white_space(#[trigger] s[k]),
        trail_ws(s) < s.len() ==> !white_space(s[s.len() - 1 - trail_ws(s)]),
    decreases s.len(),
{
    if s.len() > 0 && white_space(s.last()) {
        let t = s.drop_last();
        lemma_trail_ws(t);
        assert forall|k: int| s.len() - trail_ws(s) <= k < s.len() implies white_space(#[trigger] s[k]) by {
            if k < s.len() - 1 {
                assert(s[k] == t[k]);
            }
        }
        if trail_ws(s) < s.len() {
            assert(s[s.len() - 1 - trail_ws(s)] == t[t.len() - 1 - trail_ws(t)]);
        }
    }
}

/// A prefix of white space followed by a non-white-space character is the leading white
/// space.
proof fn lemma_lead_ws_at(s: Seq<char>, a: int)
    requires
        0 <= a <= s.len(),
        forall|k: int| 0 <= k < a ==> white_space(#[trigger] s[k]),
        a < s.len() ==> !white_space(s[a]),
    ensures
        lead_ws(s) == a,
{
    lemma_lead_ws(s);
    if lead_ws(s) < a {
        assert(white_space(s[lead_ws(s) as int]));
    } else if lead_ws(s) > a {
        assert(white_space(s[a]));
    }
}

/// A suffix of white space preceded by a non-white-space character is the trailing white
/// space.
proof fn lemma_trail_ws_at(s: Seq<char>, t: int)
    requires
        0 <= t <= s.len(),
        forall|k: int| s.len() - t <= k < s.len() ==> white_space(#[trigger] s[k]),
        t < s.len() ==> !white_space(s[s.len() - 1 - t]),
    ensures
        trail_ws(s) == t,
{
    lemma_trail_ws(s);
    if trail_ws(s) < t {
        assert(white_space(s[s.len() - 1 - trail_ws(s)]));
    } else if trail_ws(s) > t {
        assert(white_space(s[s.len() - 1 - t]));
    }
}

/// `s` without white space at either end.
pub fn trim_text(s: &str) -> (r: &str)
    ensures
        r@ == trim_spec(s@),
{
    let n = s.unicode_len();
    let mut a: usize = 0;
    while a < n && is_white_space(s.get_char(a))
        invariant
            n == s@.len(),
            a <= n,
            forall|k: int| 0 <= k < a ==> white_space(#[trigger] s@[k]),
        decreases n - a,
    {
        a = a + 1;
    }
    proof { lemma_lead_ws_at(s@, a as int); }
    if a == n {
        return s.substring_char(0, 0);
    }
    let mut b: usize = n;
    while b > a && is_white_space(s.get_char(b - 1))
        invariant
            n == s@.len(),
            a < n,
            !white_space(s@[a as int]),
            a <= b <= n,
            forall|k: int| b <= k < n ==> white_space(#[trigger] s@[k]),
        decreases b,
    {
        b = b - 1;
    }
    proof {
        if b == a {
            assert(white_space(s@[a as int]) || b > a);
        }
        lemma_trail_ws_at(s@, n - b);
    }
    s.substring_char(a, b)
}

/// Whether every character of `d` is an ASCII digit.
pub open spec fn all_digits(d: Seq<char>) -> bool {
    forall|k: int| 0 <= k < d.len() ==> '0' <= #[trigger] d[k] <= '9'
}

/// The value of a string of ASCII digits.
pub open spec fn digits_value(d: Seq<char>) -> nat
    decreases d.len(),
{
    if d.len() == 0 { 0 } else { digits_value(d.drop_last()) * 10 + ((d.last() as nat) - ('0' as nat)) as nat }
}

/// The digits of an unsigned number in Rust's syntax: an optional `+`, then digits.
pub open spec fn unsigned_digits(s: Seq<char>) -> Seq<char> {
    if s.len() > 0 && s[0] == '+' { s.subrange(1, s.len() as int) } else { s }
}

/// What `u64::from_str` gives: the value of an optional `+` and at least one digit, when
/// it fits.
pub open spec fn u64_text(s: Seq<char>) -> Option<u64> {
    let d = unsigned_digits(s);
    if d.len() > 0 && all_digits(d) && digits_value(d) <= u64::MAX { Some(digits_value(d) as u64) } else { None }
}

/// Parses an unsigned decimal number (see [`u64_text`]).
pub fn parse_u64(s: &str) -> (r: Option<u64>)
    ensures
        r == u64_text(s@),
{
    let n = s.unicode_len();
    let mut i: usize = 0;
    if n > 0 && s.get_char(0) == '+' {
        i = 1;
    }
    let ghost d = unsigned_digits(s@);
    assert(d =~= s@.subrange(i as int, n as int));
    if i == n {
        return None;
    }
    let mut v: u64 = 0;
    let mut k: usize = i;
    while k < n
        invariant
            n == s@.len(),
            i < n,
            i <= k <= n,
            d == s@.subrange(i as int, n as int),
            d == unsigned_digits(s@),
            all_digits(d.take(k - i)),
            v == digits_value(d.take(k - i)),
        decreases n - k,
    {
        let c = s.get_char(k);
        assert(d.take(k + 1 - i).drop_last() =~= d.take(k - i));
        assert(d.take(k + 1 - i).last() == c);
        if c < '0' || c > '9' {
            assert(!all_digits(d)) by {
                assert(d[k - i] == c);
            }
            return None;
        }
        let digit: u64 = (c as u64) - ('0' as u64);
        if v > (u64::MAX - digit) / 10 {
            proof {
                assert(digits_value(d.take(k + 1 - i)) == v * 10 + digit);
                assert(v * 10 + digit > u64::MAX) by (nonlinear_arith)
                    requires v > (u64::MAX - digit) / 10, digit <= 9;
                if all_digits(d) {
                    lemma_digits_value_mono(d, k + 1 - i);
                }
            }
            return None;
        }
        proof {
            assert(v * 10 + digit <= u64::MAX) by (nonlinear_arith)
                requires v <= (u64::MAX - digit) / 10, digit <= 9;
        }
        v = v * 10 + digit;
        k = k + 1;
    }
    assert(d.take(n - i) =~= d);
    Some(v)
}

/// A longer prefix of digits has a value no smaller.
proof fn lemma_digits_value_mono(d: Seq<char>, j: int)
    requires
        0 <= j <= d.len(),
        all_digits(d),
    ensures
        digits_value(d.take(j)) <= digits_value(d),
    decreases d.len() - j,
{
    if j == d.len() {
        assert(d.take(j) =~= d);
    } else {
        lemma_digits_value_mono(d, j + 1);
        assert(d.take(j + 1).drop_last() =~= d.take(j));
        assert(d.take(j + 1).last() == d[j]);
        assert('0' <= d[j] <= '9');
    }
}

/// The text of one decimal digit.
fn digit_text(d: u64) -> (r: &'static str)
    requires
        d < 10,
    ensures
        r@ == seq![digit_char(d as nat)],
{
    proof {
        reveal_strlit("0");
        reveal_strlit("1");
        reveal_strlit("2");
        reveal_strlit("3");
        reveal_strlit("4");
        reveal_strlit("5");
        reveal_strlit("6");
        reveal_strlit("7");
        reveal_strlit("8");
        reveal_strlit("9");
    }
    if d == 0 { "0" }
    else if d == 1 { "1" }
    else if d == 2 { "2" }
    else if d == 3 { "3" }
    else if d == 4 { "4" }
    else if d == 5 { "5" }
    else if d == 6 { "6" }
    else if d == 7 { "7" }
    else if d == 8 { "8" }
    else { "9" }
}

/// The decimal text of `n` (see [`decimal`]).
pub fn decimal_string(n: u64) -> (r: String)
    ensures
        r@ == decimal(n as nat),
    decreases n,
{
    if n < 10 {
        digit_text(n).to_owned()
    } else {
        let mut s = decimal_string(n / 10);
        s.append(digit_text(n % 10));
        s
    }
}

/// The decimal text of a number is a non-empty string of digits, not starting with `+`,
/// whose value is the number.
pub proof fn lemma_decimal_digits(n: nat)
    ensures
        decimal(n).len() > 0,
        all_digits(decimal(n)),
        digits_value(decimal(n)) == n,
        decimal(n)[0] != '+',
    decreases n,
{
    let d = n % 10;
    assert(('0' as nat) <= (digit_char(d) as nat) <= ('9' as nat));
    assert((digit_char(d) as nat) - ('0' as nat) == d);
    if n >= 10 {
        lemma_decimal_digits(n / 10);
        let s = decimal(n / 10);
        assert(decimal(n) == s.push(digit_char(d)));
        assert(decimal(n).drop_last() =~= s);
        assert forall|k: int| 0 <= k < decimal(n).len() implies '0' <= #[trigger] decimal(n)[k] <= '9' by {
            if k < s.len() {
                assert(decimal(n)[k] == s[k]);
            }
        }
        assert(decimal(n)[0] == s[0]);
        assert(decimal(n).last() == digit_char(d));
        assert(digits_value(decimal(n)) == digits_value(s) * 10 + ((digit_char(d) as nat) - ('0' as nat)));
        assert((n / 10) * 10 + n % 10 == n) by (nonlinear_arith);
    } else {
        assert(n % 10 == n);
        assert(decimal(n) == seq![digit_char(n)]);
        assert(decimal(n).drop_last() =~= Seq::<char>::empty());
        assert(decimal(n).last() == digit_char(d));
        assert(digits_value(decimal(n)) == digits_value(Seq::<char>::empty()) * 10 + ((digit_char(d) as nat) - ('0' as nat)));
    }
}

/// Parsing the decimal text of a number gives the number back.
pub proof fn law_decimal_parse_roundtrip(n: u64)
    ensures
        u64_text(decimal(n as nat)) == Some(n),
{
    lemma_decimal_digits(n as nat);
    assert(unsigned_digits(decimal(n as nat)) == decimal(n as nat));
}

} // verus!

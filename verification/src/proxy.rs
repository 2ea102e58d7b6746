use vstd::prelude::*;
use crate::text::{contains_text, split_words, starts_with_text, text_contains, text_starts_with, ws_words};

verus! {

/// Whether `model_id` names a Mistral model, which needs special tool-calling handling:
/// its id contains `mistral` or `devstral`.
pub fn is_mistral_model(model_id: &str) -> (r: bool)
    ensures
        r == (text_contains(model_id@, "mistral"@) || text_contains(model_id@, "devstral"@)),
{
    contains_text(model_id, "mistral") || contains_text(model_id, "devstral")
}

/// Whether `model_id` names a MiniMax model, which needs a JSON tool-calling hint: its id
/// starts with `minimaxai/`.
pub fn is_minimax_model(model_id: &str) -> (r: bool)
    ensures
        r == text_starts_with(model_id@, "minimaxai/"@),
{
    starts_with_text(model_id, "minimaxai/")
}

/// Number of windows of `ws` words, starting at `j` and stepping by `ws`, that repeat the
/// window at `i` without a break.
pub open spec fn run_len(w: Seq<Seq<char>>, i: int, ws: int, j: int) -> nat
    decreases w.len() - j,
{
    if ws <= 0 || j < 0 || j + ws > w.len() {
        0
    } else if w.subrange(j, j + ws) == w.subrange(i, i + ws) {
        1 + run_len(w, i, ws, j + ws)
    } else {
        0
    }
}

/// Repeats of windows of `ws` words starting before `k`.
pub open spec fn window_reps(w: Seq<Seq<char>>, ws: int, k: int) -> nat
    decreases k,
{
    if k <= 0 { 0 } else { window_reps(w, ws, k - 1) + run_len(w, k - 1, ws, k - 1 + ws) }
}

/// Repeats of windows of `ws` words over the whole text (none below two windows' worth).
pub open spec fn reps_for_size(w: Seq<Seq<char>>, ws: int) -> nat {
    if w.len() < 2 * ws { 0 } else { window_reps(w, ws, w.len() - ws) }
}

/// Repetition score of a text already in lower case: windows of three to six words that
/// recur right after themselves, counted per start and size, capped at ten; zero below
/// four words.
pub open spec fn repetition_score(lowered: Seq<char>) -> nat {
    let w = ws_words(lowered);
    if w.len() < 4 {
        0
    } else {
        let t = reps_for_size(w, 3) + reps_for_size(w, 4) + reps_for_size(w, 5) + reps_for_size(w, 6);
        if t < 10 { t } else { 10 }
    }
}

/// What `str::to_lowercase` returns for a text.
pub uninterp spec fn lowercase_of(s: Seq<char>) -> Seq<char>;

/// Calls `str::to_lowercase`, which maps every character to its Unicode lower case; the
/// contract names the result and says nothing more of it.
#[verifier::external_body]
fn to_lowercase(s: &str) -> (r: String)
    ensures
        r@ == lowercase_of(s@),
{
    s.to_lowercase()
}

/// Whether two words are equal.
fn same_word(a: &Vec<char>, b: &Vec<char>) -> (r: bool)
    ensures
        r == (a@ == b@),
{
    if a.len() != b.len() {
        return false;
    }
    let mut k: usize = 0;
    while k < a.len()
        invariant
            a@.len() == b@.len(),
            k <= a@.len(),
            forall|j: int| 0 <= j < k ==> a@[j] == b@[j],
        decreases a@.len() - k,
    {
        if a[k] != b[k] {
            return false;
        }
        k = k + 1;
    }
    assert(a@ =~= b@);
    true
}

/// Whether the windows of `ws` words at `i` and `j` are equal.
fn same_window(w: &Vec<Vec<char>>, i: usize, j: usize, ws: usize, Ghost(words): Ghost<Seq<Seq<char>>>) -> (r: bool)
    requires
        i + ws <= w@.len(),
        j + ws <= w@.len(),
        words.len() == w@.len(),
        forall|k: int| 0 <= k < w@.len() ==> #[trigger] w@[k]@ == words[k],
    ensures
        r == (words.subrange(j as int, j + ws) == words.subrange(i as int, i + ws)),
{
    let ghost a = words.subrange(j as int, j + ws);
    let ghost b = words.subrange(i as int, i + ws);
    let wl = w.len();
    let mut k: usize = 0;
    while k < ws
        invariant
            wl == w@.len(),
            i + ws <= w@.len(),
            j + ws <= w@.len(),
            words.len() == w@.len(),
            forall|k: int| 0 <= k < w@.len() ==> #[trigger] w@[k]@ == words[k],
            a == words.subrange(j as int, j + ws),
            b == words.subrange(i as int, i + ws),
            k <= ws,
            forall|m: int| 0 <= m < k ==> #[trigger] a[m] == b[m],
        decreases ws - k,
    {
        if !same_word(&w[j + k], &w[i + k]) {
            assert(a[k as int] != b[k as int]);
            return false;
        }
        k = k + 1;
    }
    assert(a =~= b);
    true
}

/// Repeats counted over more starts are no fewer.
proof fn lemma_window_reps_mono(w: Seq<Seq<char>>, ws: int, a: int, b: int)
    requires
        a <= b,
    ensures
        window_reps(w, ws, a) <= window_reps(w, ws, b),
    decreases b - a,
{
    if a < b {
        lemma_window_reps_mono(w, ws, a, b - 1);
    }
}

/// Once the repeats counted so far reach ten, the score is ten.
proof fn lemma_score_capped(lowered: Seq<char>, ws: int, i: int, done: int)
    requires
        ws_words(lowered).len() >= 4,
        3 <= ws <= 6,
        ws_words(lowered).len() >= 2 * ws,
        0 <= i < ws_words(lowered).len() - ws,
        done == (if ws > 3 { reps_for_size(ws_words(lowered), 3) } else { 0 })
            + (if ws > 4 { reps_for_size(ws_words(lowered), 4) } else { 0 })
            + (if ws > 5 { reps_for_size(ws_words(lowered), 5) } else { 0 }),
        done + window_reps(ws_words(lowered), ws, i) + run_len(ws_words(lowered), i, ws, i + ws) >= 10,
    ensures
        repetition_score(lowered) == 10,
{
    let w = ws_words(lowered);
    lemma_window_reps_mono(w, ws, i + 1, w.len() - ws);
    assert(reps_for_size(w, ws) >= window_reps(w, ws, i + 1));
}

/// Repetition score of a text already in lower case (see [`repetition_score`]).
pub fn count_word_repetitions(lowered: &str) -> (r: u32)
    ensures
        r == repetition_score(lowered@),
{
    let words = split_words(lowered);
    let ghost w = ws_words(lowered@);
    let n = words.len();
    if n < 4 {
        return 0;
    }
    let mut total: usize = 0;
    let ghost mut done: int = 0;
    let mut ws: usize = 3;
    while ws <= 6
        invariant
            n == words@.len(),
            n == w.len(),
            n >= 4,
            forall|k: int| 0 <= k < words@.len() ==> #[trigger] words@[k]@ == w[k],
            w == ws_words(lowered@),
            3 <= ws <= 7,
            total < 10,
            total == done,
            done == (if ws > 3 { reps_for_size(w, 3) } else { 0 }) + (if ws > 4 { reps_for_size(w, 4) } else { 0 })
                + (if ws > 5 { reps_for_size(w, 5) } else { 0 }) + (if ws > 6 { reps_for_size(w, 6) } else { 0 }),
        decreases 7 - ws,
    {
        if n >= ws * 2 {
            let mut i: usize = 0;
            while i < n - ws
                invariant
                    n == words@.len(),
                    n == w.len(),
                    forall|k: int| 0 <= k < words@.len() ==> #[trigger] words@[k]@ == w[k],
                    3 <= ws <= 6,
                    n >= ws * 2,
                    i <= n - ws,
                    total < 10,
                    total == done + window_reps(w, ws as int, i as int),
                    w == ws_words(lowered@),
                    n >= 4,
                    done == (if ws > 3 { reps_for_size(w, 3) } else { 0 }) + (if ws > 4 { reps_for_size(w, 4) } else { 0 })
                        + (if ws > 5 { reps_for_size(w, 5) } else { 0 }),
                decreases n - ws - i,
            {
                let mut count: usize = 0;
                let mut j: usize = i + ws;
                let mut stop = false;
                while !stop && ws <= n - j
                    invariant
                        n == words@.len(),
                        n == w.len(),
                        forall|k: int| 0 <= k < words@.len() ==> #[trigger] words@[k]@ == w[k],
                        3 <= ws <= 6,
                        i + ws <= j <= n,
                        i < n - ws,
                        count <= j,
                        count + (if stop { 0 } else { run_len(w, i as int, ws as int, j as int) }) == run_len(w, i as int, ws as int, i + ws),
                    decreases n - j + (if stop { 0int } else { 1int }),
                {
                    if same_window(&words, i, j, ws, Ghost(w)) {
                        count = count + 1;
                        j = j + ws;
                    } else {
                        stop = true;
                    }
                }
                if count >= 10 - total {
                    proof { lemma_score_capped(lowered@, ws as int, i as int, done); }
                    return 10;
                }
                total = total + count;
                i = i + 1;
            }
            proof {
                assert(reps_for_size(w, ws as int) == window_reps(w, ws as int, (n - ws) as int));
            }
        }
        proof { done = total as int; }
        ws = ws + 1;
    }
    total as u32
}

/// Repetition score of a response text, case-insensitively: the score (see
/// [`repetition_score`]) of its lower-case form.
pub fn count_repetitions(text: &str) -> (r: u32)
    ensures
        r == repetition_score(lowercase_of(text@)),
{
    let lowered = to_lowercase(text);
    count_word_repetitions(lowered.as_str())
}

/// The repetition score never exceeds ten, and a text of fewer than four words scores
/// zero.
pub proof fn law_repetition_score_bounds(lowered: Seq<char>)
    ensures
        repetition_score(lowered) <= 10,
        ws_words(lowered).len() < 4 ==> repetition_score(lowered) == 0,
{
}

/// The repetition score depends on the words alone: texts with the same words (however
/// they are spaced) score the same.
pub proof fn law_score_depends_on_words(a: Seq<char>, b: Seq<char>)
    requires
        ws_words(a) == ws_words(b),
    ensures
        repetition_score(a) == repetition_score(b),
{
}

/// Re-joining a lowered text's words by single spaces keeps its repetition score.
pub proof fn law_rejoined_words_score_alike(lowered: Seq<char>)
    ensures
        repetition_score(crate::text::join_words(ws_words(lowered))) == repetition_score(lowered),
{
    crate::text::law_join_keeps_words(lowered);
}

} // verus!
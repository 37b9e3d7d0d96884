//! When a text is taken to run in a loop.
use vstd::prelude::*;
use crate::openrouter::repetition::{
    dark_chars, dominant, ideographs, is_ideograph, is_repetitive, long_sentences, sentences,
    times_said, with_long,
};
use crate::text::is_white_space;

verus! {

/// A sentence said some times, with a full stop each time.
pub open spec fn said(sentence: Seq<char>, times: nat) -> Seq<char>
    decreases times,
{
    if times == 0 {
        Seq::empty()
    } else {
        said(sentence, (times - 1) as nat) + sentence + seq!['。']
    }
}

/// A sentence without white space and without a mark that ends one.
pub open spec fn is_one_sentence(sentence: Seq<char>) -> bool {
    forall|i: int|
        0 <= i < sentence.len() ==> !is_white_space(#[trigger] sentence[i]) && sentence[i] != '。'
            && sentence[i] != '！' && sentence[i] != '？' && sentence[i] != '!' && sentence[i] != '?'
}

/// A list of the same sentence.
spec fn same(sentence: Seq<char>, times: nat) -> Seq<Seq<char>> {
    Seq::new(times, |k: int| sentence)
}

proof fn lemma_same_prefix(text: Seq<char>, more: Seq<char>, n: nat)
    requires
        n <= text.len() <= more.len(),
        forall|k: int| 0 <= k < text.len() ==> more[k] == #[trigger] text[k],
    ensures
        sentences(more, n) == sentences(text, n),
        dark_chars(more, n) == dark_chars(text, n),
        ideographs(more, n) == ideographs(text, n),
    decreases n,
{
    if n > 0 {
        lemma_same_prefix(text, more, (n - 1) as nat);
        assert(more[n - 1] == text[n - 1]);
    }
}

proof fn lemma_within(text: Seq<char>, sentence: Seq<char>, at: nat, n: nat)
    requires
        is_one_sentence(sentence),
        n <= sentence.len(),
        at + sentence.len() <= text.len(),
        forall|k: int| 0 <= k < sentence.len() ==> text[at + k] == #[trigger] sentence[k],
        sentences(text, at).1 == Seq::<char>::empty(),
    ensures
        sentences(text, at + n) == (sentences(text, at).0, sentence.take(n as int)),
        dark_chars(text, at + n) == dark_chars(text, at) + n,
    decreases n,
{
    if n > 0 {
        lemma_within(text, sentence, at, (n - 1) as nat);
        assert(text[at + (n - 1)] == sentence[n - 1]);
        assert(sentence.take(n - 1).push(sentence[n - 1]) =~= sentence.take(n as int));
    } else {
        assert(sentence.take(0) =~= Seq::<char>::empty());
    }
}

proof fn lemma_said(sentence: Seq<char>, times: nat)
    requires
        is_one_sentence(sentence),
        sentence.len() >= 20,
    ensures
        said(sentence, times).len() == times * (sentence.len() + 1),
        sentences(said(sentence, times), said(sentence, times).len()) == (
            same(sentence, times),
            Seq::<char>::empty(),
        ),
        dark_chars(said(sentence, times), said(sentence, times).len()) == times * (sentence.len()
            + 1),
    decreases times,
{
    let text = said(sentence, times);
    if times > 0 {
        let before = said(sentence, (times - 1) as nat);
        lemma_said(sentence, (times - 1) as nat);
        let at = before.len();
        lemma_same_prefix(before, text, at);
        lemma_within(text, sentence, at, sentence.len());
        assert(sentence.take(sentence.len() as int) =~= sentence);
        let last = at + sentence.len();
        assert(text.len() == last + 1);
        assert(text[last as int] == '。');
        assert(!is_white_space('。'));
        assert(same(sentence, (times - 1) as nat).push(sentence) =~= same(sentence, times));
        assert(sentences(text, last + 1) == (
            with_long(same(sentence, (times - 1) as nat), sentence),
            Seq::<char>::empty(),
        ));
        assert((times - 1) * (sentence.len() + 1) + sentence.len() + 1 == times * (sentence.len()
            + 1)) by (nonlinear_arith);
    } else {
        assert(same(sentence, 0) =~= Seq::<Seq<char>>::empty());
        assert(0 * (sentence.len() + 1) == 0);
    }
}

proof fn lemma_dominant_same(sentence: Seq<char>, times: nat, n: nat)
    requires
        n <= times,
        sentence.len() > 0,
    ensures
        times_said(same(sentence, times), sentence, n) == n,
        dominant(same(sentence, times), n) == (n * sentence.len(), n),
    decreases n,
{
    if n > 0 {
        lemma_dominant_same(sentence, times, (n - 1) as nat);
        assert(n * sentence.len() > (n - 1) * sentence.len()) by (nonlinear_arith)
            requires
                sentence.len() > 0,
        ;
    } else {
        assert(0 * sentence.len() == 0);
    }
}

/// Where the length of the sound is not known, eight times and a thousand
/// characters make a loop.
pub proof fn lemma_loop_without_sound(sentence: Seq<char>, times: nat)
    requires
        is_one_sentence(sentence),
        sentence.len() >= 20,
    ensures
        is_repetitive(said(sentence, times), 0) <==> times >= 8 && times * (sentence.len() + 1)
            >= 1_000,
{
    lemma_said(sentence, times);
    lemma_dominant_same(sentence, times, times);
    let text = said(sentence, times);
    assert(long_sentences(text) == same(sentence, times));
    assert(times * sentence.len() * 100 >= times * (sentence.len() + 1) * 60) by (nonlinear_arith)
        requires
            sentence.len() >= 20,
    ;
}

proof fn lemma_ideographs_within(text: Seq<char>, sentence: Seq<char>, at: nat, n: nat)
    requires
        n <= sentence.len(),
        at + sentence.len() <= text.len(),
        forall|k: int| 0 <= k < sentence.len() ==> text[at + k] == #[trigger] sentence[k],
    ensures
        (forall|k: int| 0 <= k < sentence.len() ==> 0x3400 <= #[trigger] sentence[k] as u32 <= 0x9fff)
            ==> ideographs(text, at + n) == ideographs(text, at) + n,
        (forall|k: int| 0 <= k < sentence.len() ==> !(0x3400 <= #[trigger] sentence[k] as u32
            <= 0x9fff)) ==> ideographs(text, at + n) == ideographs(text, at),
    decreases n,
{
    if n > 0 {
        lemma_ideographs_within(text, sentence, at, (n - 1) as nat);
        assert(text[at + (n - 1)] == sentence[n - 1]);
    }
}

proof fn lemma_ideographs_said(sentence: Seq<char>, times: nat)
    ensures
        (forall|k: int| 0 <= k < sentence.len() ==> 0x3400 <= #[trigger] sentence[k] as u32 <= 0x9fff)
            ==> ideographs(said(sentence, times), said(sentence, times).len()) == times
            * sentence.len(),
        (forall|k: int| 0 <= k < sentence.len() ==> !(0x3400 <= #[trigger] sentence[k] as u32
            <= 0x9fff)) ==> ideographs(said(sentence, times), said(sentence, times).len()) == 0,
    decreases times,
{
    if times > 0 {
        let text = said(sentence, times);
        let before = said(sentence, (times - 1) as nat);
        lemma_ideographs_said(sentence, (times - 1) as nat);
        lemma_same_prefix(before, text, before.len());
        lemma_ideographs_within(text, sentence, before.len(), sentence.len());
        let last = before.len() + sentence.len();
        assert(text.len() == last + 1);
        assert(text[last as int] == '。');
        assert(!is_ideograph('。'));
        assert((times - 1) * sentence.len() + sentence.len() == times * sentence.len())
            by (nonlinear_arith);
    } else {
        assert(0 * sentence.len() == 0);
    }
}

/// A long sentence said over and over is a loop exactly where it is said at
/// least four times, takes at least two hundred characters, and comes faster
/// than anyone speaks: more than ten characters a second of Chinese, more than
/// twenty-five of a text without ideographs. A quarter of a second is the least
/// length that counts.
pub proof fn lemma_loop_by_speed(sentence: Seq<char>, times: nat, media_duration_ms: u64)
    requires
        is_one_sentence(sentence),
        sentence.len() >= 20,
        media_duration_ms > 0,
    ensures
        ({
            let total = times * (sentence.len() + 1);
            let length = if media_duration_ms < 250 {
                250
            } else {
                media_duration_ms as int
            };
            let chinese = forall|k: int|
                0 <= k < sentence.len() ==> 0x3400 <= #[trigger] sentence[k] as u32 <= 0x9fff;
            let other = forall|k: int|
                0 <= k < sentence.len() ==> !(0x3400 <= #[trigger] sentence[k] as u32 <= 0x9fff);
            &&& chinese ==> (is_repetitive(said(sentence, times), media_duration_ms) <==> times >= 4
                && total >= 200 && total * 1_000 > 10 * length)
            &&& other ==> (is_repetitive(said(sentence, times), media_duration_ms) <==> times >= 4
                && total >= 200 && total * 1_000 > 25 * length)
        }),
{
    lemma_said(sentence, times);
    lemma_ideographs_said(sentence, times);
    lemma_dominant_same(sentence, times, times);
    let text = said(sentence, times);
    assert(long_sentences(text) == same(sentence, times));
    assert(times * sentence.len() * 100 >= times * (sentence.len() + 1) * 60) by (nonlinear_arith)
        requires
            sentence.len() >= 20,
    ;
    assert(times * sentence.len() * 2 >= times * (sentence.len() + 1)) by (nonlinear_arith)
        requires
            sentence.len() >= 20,
    ;
}

proof fn lemma_dark_bound(text: Seq<char>, n: nat)
    requires
        n <= text.len(),
    ensures
        dark_chars(text, n) <= n,
    decreases n,
{
    if n > 0 {
        lemma_dark_bound(text, (n - 1) as nat);
    }
}

/// A short text is never a loop, and neither is one that is said as slowly as
/// people speak.
pub proof fn lemma_speech_is_no_loop(text: Seq<char>, media_duration_ms: u64)
    ensures
        text.len() < 200 ==> !is_repetitive(text, media_duration_ms),
        media_duration_ms >= 250 && text.len() * 1_000 <= 10 * media_duration_ms
            ==> !is_repetitive(text, media_duration_ms),
        text.len() < 1_000 ==> !is_repetitive(text, 0),
{
    lemma_dark_bound(text, text.len());
}

proof fn lemma_dominant_bound(list: Seq<Seq<char>>, n: nat)
    requires
        n <= list.len(),
    ensures
        dominant(list, n).1 <= n,
    decreases n,
{
    if n > 0 {
        lemma_dominant_bound(list, (n - 1) as nat);
        lemma_times_bound(list, list[n - 1], n);
    }
}

proof fn lemma_times_bound(list: Seq<Seq<char>>, sentence: Seq<char>, n: nat)
    ensures
        times_said(list, sentence, n) <= n,
    decreases n,
{
    if n > 0 {
        lemma_times_bound(list, sentence, (n - 1) as nat);
    }
}

proof fn lemma_once(list: Seq<Seq<char>>, sentence: Seq<char>, n: nat)
    requires
        list.no_duplicates(),
        n <= list.len(),
    ensures
        times_said(list, sentence, n) <= 1,
        (forall|k: int| 0 <= k < n ==> #[trigger] list[k] != sentence) ==> times_said(
            list,
            sentence,
            n,
        ) == 0,
    decreases n,
{
    if n > 0 {
        lemma_once(list, sentence, (n - 1) as nat);
        if list[n - 1] == sentence {
            assert forall|k: int| 0 <= k < n - 1 implies #[trigger] list[k] != sentence by {
                assert(list[k] != list[n - 1]);
            }
        }
    }
}

/// A text in which no long sentence is said twice is never a loop, and neither
/// is one with fewer than four long sentences.
pub proof fn lemma_different_sentences_are_no_loop(text: Seq<char>, media_duration_ms: u64)
    ensures
        long_sentences(text).no_duplicates() ==> !is_repetitive(text, media_duration_ms),
        long_sentences(text).len() < 4 ==> !is_repetitive(text, media_duration_ms),
{
    let list = long_sentences(text);
    lemma_dominant_bound(list, list.len());
    if list.no_duplicates() {
        lemma_dominant_once(list, list.len());
    }
}

proof fn lemma_dominant_once(list: Seq<Seq<char>>, n: nat)
    requires
        list.no_duplicates(),
        n <= list.len(),
    ensures
        dominant(list, n).1 <= 1,
    decreases n,
{
    if n > 0 {
        lemma_dominant_once(list, (n - 1) as nat);
        lemma_once(list, list[n - 1], n);
    }
}

} // verus!

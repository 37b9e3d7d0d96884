//! Output that runs in a loop: a model that repeats a sentence faster than
//! anyone speaks.
use vstd::prelude::*;
use crate::text::{chars_of, is_white_space, same_chars};

verus! {

/// How many of the first `n` characters are not white space.
pub open spec fn dark_chars(text: Seq<char>, n: nat) -> nat
    decreases n,
{
    if n == 0 {
        0
    } else {
        dark_chars(text, (n - 1) as nat) + (if is_white_space(text[n - 1]) {
            0nat
        } else {
            1
        })
    }
}

pub open spec fn is_ideograph(c: char) -> bool {
    0x3400 <= c as u32 <= 0x9fff
}

/// How many of the first `n` characters are ideographs.
pub open spec fn ideographs(text: Seq<char>, n: nat) -> nat
    decreases n,
{
    if n == 0 {
        0
    } else {
        ideographs(text, (n - 1) as nat) + (if is_ideograph(text[n - 1]) {
            1nat
        } else {
            0
        })
    }
}

pub open spec fn ends_sentence(c: char) -> bool {
    c == '。' || c == '！' || c == '？' || c == '!' || c == '?' || c == '\n'
}

/// The sentences of the first `n` characters without white space: those that
/// are ended and long enough to count, and the one that is not ended.
pub open spec fn sentences(text: Seq<char>, n: nat) -> (Seq<Seq<char>>, Seq<char>)
    decreases n,
{
    if n == 0 {
        (Seq::empty(), Seq::empty())
    } else {
        let (ended, open) = sentences(text, (n - 1) as nat);
        if ends_sentence(text[n - 1]) {
            (with_long(ended, open), Seq::empty())
        } else if is_white_space(text[n - 1]) {
            (ended, open)
        } else {
            (ended, open.push(text[n - 1]))
        }
    }
}

/// A list with a sentence more, where the sentence has at least 20 characters.
pub open spec fn with_long(list: Seq<Seq<char>>, sentence: Seq<char>) -> Seq<Seq<char>> {
    if sentence.len() >= 20 {
        list.push(sentence)
    } else {
        list
    }
}

/// The long sentences of a text.
pub open spec fn long_sentences(text: Seq<char>) -> Seq<Seq<char>> {
    let (ended, open) = sentences(text, text.len());
    with_long(ended, open)
}

/// How often a sentence stands among the first `n`.
pub open spec fn times_said(list: Seq<Seq<char>>, sentence: Seq<char>, n: nat) -> nat
    decreases n,
{
    if n == 0 {
        0
    } else {
        times_said(list, sentence, (n - 1) as nat) + (if list[n - 1] == sentence {
            1nat
        } else {
            0
        })
    }
}

/// How many characters the sentence has that takes most of them by being
/// repeated, and how often it stands among the first `n`.
pub open spec fn dominant(list: Seq<Seq<char>>, n: nat) -> (nat, nat)
    decreases n,
{
    if n == 0 {
        (0, 0)
    } else {
        let before = dominant(list, (n - 1) as nat);
        let sentence = list[n - 1];
        let times = times_said(list, sentence, n);
        if times * sentence.len() > before.0 {
            (times * sentence.len(), times)
        } else {
            before
        }
    }
}

/// A text is output that runs in a loop: it has at least 200 characters, one
/// sentence fills three fifths of it by being said at least four times, and the
/// whole is said faster than anyone speaks: more than 10 characters a second
/// where half of them are ideographs, else more than 25. Where the length of the
/// sound is not known, eight times and 1000 characters decide.
pub open spec fn is_repetitive(text: Seq<char>, media_duration_ms: u64) -> bool {
    let total = dark_chars(text, text.len());
    let list = long_sentences(text);
    let top = dominant(list, list.len());
    let limit = if ideographs(text, text.len()) * 2 >= total {
        10nat
    } else {
        25
    };
    &&& total >= 200
    &&& top.1 >= 4
    &&& top.0 * 100 >= total * 60
    &&& if media_duration_ms == 0 {
        top.1 >= 8 && total >= 1_000
    } else {
        total * 1_000 > limit * (if media_duration_ms < 250 {
            250
        } else {
            media_duration_ms as nat
        })
    }
}

/// The characters of each sentence of a list.
spec fn sentence_chars(list: Seq<Vec<char>>) -> Seq<Seq<char>> {
    Seq::new(list.len(), |k: int| list[k]@)
}

fn push_long(list: &mut Vec<Vec<char>>, sentence: Vec<char>)
    ensures
        sentence_chars(final(list)@) == with_long(sentence_chars(old(list)@), sentence@),
{
    let ghost before = sentence_chars(list@);
    if sentence.len() >= 20 {
        list.push(sentence);
        assert(sentence_chars(list@) =~= before.push(sentence@));
    }
}

fn split_sentences(chars: &[char]) -> (list: Vec<Vec<char>>)
    ensures
        sentence_chars(list@) == long_sentences(chars@),
{
    let mut list: Vec<Vec<char>> = Vec::new();
    let mut open: Vec<char> = Vec::new();
    let mut i: usize = 0;
    assert(sentence_chars(list@) =~= Seq::<Seq<char>>::empty());
    assert(open@ =~= Seq::<char>::empty());
    while i < chars.len()
        invariant
            i <= chars@.len(),
            sentences(chars@, i as nat) == (sentence_chars(list@), open@),
        decreases chars@.len() - i,
    {
        let c: char = chars[i];
        if c == '。' || c == '！' || c == '？' || c == '!' || c == '?' || c == '\n' {
            let mut ended: Vec<char> = Vec::new();
            std::mem::swap(&mut ended, &mut open);
            push_long(&mut list, ended);
            assert(open@ =~= Seq::<char>::empty());
        } else if !c.is_whitespace() {
            open.push(c);
        }
        i += 1;
    }
    push_long(&mut list, open);
    list
}

fn find_dominant(list: &Vec<Vec<char>>) -> (top: (u128, usize))
    ensures
        top.0 == dominant(sentence_chars(list@), list@.len()).0,
        top.1 == dominant(sentence_chars(list@), list@.len()).1,
{
    let ghost all = sentence_chars(list@);
    let mut most: u128 = 0;
    let mut count: usize = 0;
    let mut n: usize = 0;
    while n < list.len()
        invariant
            n <= list@.len(),
            all == sentence_chars(list@),
            most == dominant(all, n as nat).0,
            count == dominant(all, n as nat).1,
        decreases list@.len() - n,
    {
        let mut times: usize = 0;
        let mut k: usize = 0;
        while k <= n
            invariant
                n < list@.len(),
                k <= n + 1,
                all == sentence_chars(list@),
                times <= k,
                times == times_said(all, all[n as int], k as nat),
            decreases n + 1 - k,
        {
            assert(list.len() == list@.len());
            if same_chars(list[k].as_slice(), list[n].as_slice()) {
                times += 1;
            }
            k += 1;
        }
        let length: usize = list[n].len();
        assert((times as u128) * (length as u128) <= u128::MAX) by (nonlinear_arith)
            requires
                times <= 0xffff_ffff_ffff_ffff,
                length <= 0xffff_ffff_ffff_ffff,
        ;
        let taken: u128 = (times as u128) * (length as u128);
        assert(all[n as int] == list@[n as int]@);
        assert(taken == times_said(all, all[n as int], (n + 1) as nat) * all[n as int].len());
        if taken > most {
            most = taken;
            count = times;
        }
        n += 1;
    }
    (most, count)
}

/// Whether a text is output that runs in a loop.
pub fn looks_repetitive(text: &str, media_duration_ms: u64) -> (result: bool)
    ensures
        result == is_repetitive(text@, media_duration_ms),
{
    let chars = chars_of(text);
    let mut total: usize = 0;
    let mut cjk: usize = 0;
    let mut i: usize = 0;
    while i < chars.len()
        invariant
            i <= chars@.len(),
            chars@ == text@,
            total <= i,
            cjk <= i,
            total == dark_chars(text@, i as nat),
            cjk == ideographs(text@, i as nat),
        decreases chars@.len() - i,
    {
        let c: char = chars[i];
        if !c.is_whitespace() {
            total += 1;
        }
        if 0x3400 <= c as u32 && c as u32 <= 0x9fff {
            cjk += 1;
        }
        i += 1;
    }
    if total < 200 {
        return false;
    }
    let list = split_sentences(chars.as_slice());
    let (most, count) = find_dominant(&list);
    assert(sentence_chars(list@).len() == list@.len());
    if count < 4 {
        return false;
    }
    if most < (total as u128 * 60 + 99) / 100 {
        return false;
    }
    if media_duration_ms == 0 {
        return count >= 8 && total >= 1_000;
    }
    let limit: u128 = if cjk as u128 * 2 >= total as u128 {
        10
    } else {
        25
    };
    let millis: u128 = if media_duration_ms < 250 {
        250
    } else {
        media_duration_ms as u128
    };
    assert(limit * millis <= 25 * 0xffff_ffff_ffff_ffff) by (nonlinear_arith)
        requires
            limit <= 25,
            millis <= 0xffff_ffff_ffff_ffff,
    ;
    total as u128 * 1_000 > limit * millis
}

} // verus!

//! Word and line splitting over byte strings.
//!
//! Message content is handled as bytes. A word is a maximal run of bytes that
//! are not ASCII whitespace; a line is a maximal run of bytes that are neither
//! line feed nor carriage return, so blank lines do not count as lines.

use vstd::prelude::*;


verus! {

/// ASCII whitespace: space, tab, line feed, vertical tab, form feed, carriage return.
pub open spec fn is_space(b: u8) -> bool {
    b == 32 || b == 9 || b == 10 || b == 11 || b == 12 || b == 13
}

/// Line separators: line feed and carriage return.
pub open spec fn is_newline(b: u8) -> bool {
    b == 10 || b == 13
}

/// Whether `b` separates chunks: line separators only, or all ASCII whitespace.
pub open spec fn is_separator(b: u8, newline_only: bool) -> bool {
    if newline_only {
        is_newline(b)
    } else {
        is_space(b)
    }
}

/// The state after scanning `s` left to right: the chunks completed so far,
/// and the partial chunk still being built.
pub open spec fn chunks_state(s: Seq<u8>, newline_only: bool) -> (Seq<Seq<u8>>, Seq<u8>)
    decreases s.len(),
{
    if s.len() == 0 {
        (Seq::empty(), Seq::empty())
    } else {
        let prev = chunks_state(s.drop_last(), newline_only);
        let b = s.last();
        if is_separator(b, newline_only) {
            if prev.1.len() == 0 {
                (prev.0, Seq::empty())
            } else {
                (prev.0.push(prev.1), Seq::empty())
            }
        } else {
            (prev.0, prev.1.push(b))
        }
    }
}

/// The maximal separator-free runs of `s`, in order.
pub open spec fn chunks_of(s: Seq<u8>, newline_only: bool) -> Seq<Seq<u8>> {
    let st = chunks_state(s, newline_only);
    if st.1.len() == 0 {
        st.0
    } else {
        st.0.push(st.1)
    }
}

/// The whitespace-separated words of `s`, in order.
pub open spec fn words_of(s: Seq<u8>) -> Seq<Seq<u8>> {
    chunks_of(s, false)
}

/// The non-empty lines of `s`, in order.
pub open spec fn lines_of(s: Seq<u8>) -> Seq<Seq<u8>> {
    chunks_of(s, true)
}

/// How many words `s` holds.
pub open spec fn word_count(s: Seq<u8>) -> nat {
    words_of(s).len()
}

/// How many distinct words `s` holds.
pub open spec fn unique_word_count(s: Seq<u8>) -> nat {
    words_of(s).to_set().len()
}

/// Each completed chunk takes at least one byte of `s`, and an open partial
/// chunk takes one more, so the chunk count never exceeds the byte count.
proof fn lemma_chunks_state_len(s: Seq<u8>, newline_only: bool)
    ensures
        chunks_state(s, newline_only).0.len() + (if chunks_state(s, newline_only).1.len() == 0 {
            0int
        } else {
            1int
        }) <= s.len(),
    decreases s.len(),
{
    if s.len() > 0 {
        lemma_chunks_state_len(s.drop_last(), newline_only);
    }
}

/// The number of chunks never exceeds the number of bytes.
pub proof fn lemma_chunks_len(s: Seq<u8>, newline_only: bool)
    ensures
        chunks_of(s, newline_only).len() <= s.len(),
{
    lemma_chunks_state_len(s, newline_only);
}

/// Splits `s` into its maximal separator-free runs.
fn split_chunks(s: &[u8], newline_only: bool) -> (r: Vec<Vec<u8>>)
    ensures
        r.deep_view() == chunks_of(s@, newline_only),
{
    let ghost whole = s@;
    let mut done: Vec<Vec<u8>> = Vec::new();
    let mut cur: Vec<u8> = Vec::new();
    let mut i: usize = 0;
    while i < s.len()
        invariant
            i <= s.len(),
            s@ == whole,
            done.deep_view() =~~= chunks_state(whole.take(i as int), newline_only).0,
            cur@ =~= chunks_state(whole.take(i as int), newline_only).1,
        decreases s.len() - i,
    {
        let b = s[i];
        let sep = if newline_only {
            b == 10 || b == 13
        } else {
            b == 32 || b == 9 || b == 10 || b == 11 || b == 12 || b == 13
        };
        proof {
            assert(whole.take(i + 1).drop_last() =~= whole.take(i as int));
            assert(whole.take(i + 1).last() == b);
        }
        if sep {
            if cur.len() > 0 {
                done.push(cur);
                cur = Vec::new();
            }
        } else {
            cur.push(b);
        }
        i = i + 1;
    }
    proof {
        assert(whole.take(i as int) =~= whole);
    }
    if cur.len() > 0 {
        done.push(cur);
    }
    proof {
        assert(done.deep_view() =~~= chunks_of(whole, newline_only));
    }
    done
}

/// Whether `words` holds a chunk whose bytes equal `w`.
pub fn contains_chunk(words: &Vec<Vec<u8>>, w: &Vec<u8>) -> (r: bool)
    ensures
        r <==> words.deep_view().contains(w@),
{
    let mut j: usize = 0;
    while j < words.len()
        invariant
            j <= words.len(),
            forall|k: int| 0 <= k < j ==> words.deep_view()[k] != w@,
        decreases words.len() - j,
    {
        if &words[j] == w {
            assert(words.deep_view()[j as int] == w@);
            return true;
        }
        j = j + 1;
    }
    false
}

/// Keeps the first occurrence of each chunk, dropping later repeats.
fn dedup_chunks(words: Vec<Vec<u8>>) -> (r: Vec<Vec<u8>>)
    ensures
        r.deep_view().no_duplicates(),
        r.deep_view().to_set() == words.deep_view().to_set(),
{
    let ghost all = words.deep_view();
    let mut distinct: Vec<Vec<u8>> = Vec::new();
    let mut j: usize = 0;
    proof {
        assert(all.take(0) =~= Seq::<Seq<u8>>::empty());
        assert(distinct.deep_view().to_set() =~= all.take(0).to_set());
    }
    while j < words.len()
        invariant
            j <= words.len(),
            words.deep_view() == all,
            distinct.deep_view().no_duplicates(),
            distinct.deep_view().to_set() == all.take(j as int).to_set(),
        decreases words.len() - j,
    {
        let ghost before = distinct.deep_view();
        let w = &words[j];
        if !contains_chunk(&distinct, w) {
            distinct.push(clone_bytes(w));
            proof {
                assert(distinct.deep_view() =~~= before.push(w@));
                assert(before.push(w@) =~= before + seq![w@]);
                Seq::<Seq<u8>>::lemma_to_set_insert_commutes(before, w@);
            }
        }
        proof {
            assert(all[j as int] == w@);
            assert(all.take(j + 1) =~= all.take(j as int).push(all[j as int]));
            assert(all.take(j as int).push(all[j as int]) =~= all.take(j as int) + seq![
                all[j as int],
            ]);
            Seq::<Seq<u8>>::lemma_to_set_insert_commutes(all.take(j as int), all[j as int]);
            if before.contains(w@) {
                assert(before.to_set().insert(w@) =~= before.to_set());
            }
        }
        j = j + 1;
    }
    proof {
        assert(all.take(j as int) =~= all);
    }
    distinct
}

/// Copies a byte string.
pub fn clone_bytes(v: &Vec<u8>) -> (r: Vec<u8>)
    ensures
        r@ == v@,
{
    let r = v.clone();
    proof {
        assert(r@ =~= v@);
    }
    r
}

/// Counts the words of `message` and, separately, its distinct words.
pub fn count_words(message: &[u8]) -> (r: (u64, u64))
    ensures
        r.0 == word_count(message@),
        r.1 == unique_word_count(message@),
{
    let words = split_chunks(message, false);
    proof {
        lemma_chunks_len(message@, false);
    }
    let total = words.len() as u64;
    let distinct = dedup_chunks(words);
    proof {
        distinct.deep_view().unique_seq_to_set();
    }
    let unique = distinct.len() as u64;
    (total, unique)
}

/// The distinct non-empty lines of `text`: a reference word list handed in as
/// newline-separated bytes, deduplicated so membership checks are unambiguous.
pub fn get_common_words(text: &[u8]) -> (r: Vec<Vec<u8>>)
    ensures
        r.deep_view().no_duplicates(),
        r.deep_view().to_set() == lines_of(text@).to_set(),
{
    let raw = split_chunks(text, true);
    dedup_chunks(raw)
}

} // verus!

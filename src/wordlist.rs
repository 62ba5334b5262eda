use vstd::prelude::*;

verus! {

/// Relies on `String`'s `FromIterator<char>`: the string of exactly these
/// characters, in order.
#[verifier::external_body]
fn string_from_chars(chars: &Vec<char>) -> (s: String)
    ensures
        s@ == chars@,
{
    chars.iter().collect()
}

/// `ch` is white space as Unicode's `White_Space` property (and
/// `char::is_whitespace`) lists it.
pub open spec fn is_space(ch: char) -> bool {
    ('\t' <= ch <= '\r') || ch == ' ' || ch == '\u{85}' || ch == '\u{a0}' || ch == '\u{1680}' || ('\u{2000}' <= ch
        <= '\u{200a}') || ch == '\u{2028}' || ch == '\u{2029}' || ch == '\u{202f}' || ch == '\u{205f}' || ch
        == '\u{3000}'
}

fn space(ch: char) -> (r: bool)
    ensures
        r == is_space(ch),
{
    ('\t' <= ch && ch <= '\r') || ch == ' ' || ch == '\u{85}' || ch == '\u{a0}' || ch == '\u{1680}' || ('\u{2000}'
        <= ch && ch <= '\u{200a}') || ch == '\u{2028}' || ch == '\u{2029}' || ch == '\u{202f}' || ch == '\u{205f}'
        || ch == '\u{3000}'
}

/// `ch` with an ASCII lower-case letter turned upper-case.
pub open spec fn upper(ch: char) -> char {
    if 'a' <= ch <= 'z' {
        ((ch as u32) - 32) as char
    } else {
        ch
    }
}

/// The characters of `line` without white space, each through `upper`.
pub open spec fn cleaned(line: Seq<char>) -> Seq<char>
    decreases line.len(),
{
    if line.len() == 0 {
        Seq::empty()
    } else {
        let rest = cleaned(line.drop_last());
        let ch = line.last();
        if is_space(ch) {
            rest
        } else {
            rest.push(upper(ch))
        }
    }
}

fn to_upper(ch: char) -> (r: char)
    ensures
        r == upper(ch),
{
    if 'a' <= ch && ch <= 'z' {
        let code: u8 = (ch as u32 - 32) as u8;
        code as char
    } else {
        ch
    }
}

/// One line of input as a word: white space removed, ASCII letters upper-cased.
pub fn clean_word(line: &String) -> (word: String)
    ensures
        word@ == cleaned(line@),
{
    let len = line.as_str().unicode_len();
    let mut out: Vec<char> = Vec::new();
    let mut i: usize = 0;
    while i < len
        invariant
            len == line@.len(),
            i <= len,
            out@ == cleaned(line@.subrange(0, i as int)),
        decreases len - i,
    {
        let ch = line.as_str().get_char(i);
        proof {
            let pre = line@.subrange(0, i as int + 1);
            assert(pre.drop_last() =~= line@.subrange(0, i as int));
            assert(pre.last() == ch);
        }
        if !space(ch) {
            out.push(to_upper(ch));
        }
        i = i + 1;
    }
    proof {
        assert(line@.subrange(0, len as int) =~= line@);
    }
    string_from_chars(&out)
}

/// The letters of each string.
pub open spec fn views(s: Seq<String>) -> Seq<Seq<char>> {
    Seq::new(s.len(), |i: int| s[i]@)
}

/// `out` is `words` with every repeat of an earlier word left out: `idx` picks,
/// in increasing order, the first occurrence of each distinct word.
pub open spec fn is_dedup(idx: Seq<usize>, out: Seq<Seq<char>>, words: Seq<Seq<char>>) -> bool {
    &&& idx.len() == out.len()
    &&& forall|o: int| 0 <= o < idx.len() ==> #[trigger] idx[o] < words.len() && out[o] == words[idx[o] as int]
    &&& forall|o1: int, o2: int| 0 <= o1 < o2 < idx.len() ==> #[trigger] idx[o1] < #[trigger] idx[o2]
    &&& forall|o: int, j: int| 0 <= o < idx.len() && 0 <= j < idx[o] ==> #[trigger] words[j] != #[trigger] out[o]
    &&& forall|j: int| 0 <= j < words.len() ==> #[trigger] out.contains(words[j])
}

/// The words with later repeats removed, keeping the first occurrence of each,
/// in order.
pub fn dedup_words(words: &Vec<String>) -> (out: Vec<String>)
    ensures
        exists|idx: Seq<usize>| #[trigger] is_dedup(idx, views(out@), views(words@)),
        views(out@).no_duplicates(),
{
    let ghost ws = views(words@);
    let n = words.len();
    let mut out: Vec<String> = Vec::new();
    let ghost mut idx: Seq<usize> = Seq::empty();
    let mut k: usize = 0;
    while k < n
        invariant
            n == words@.len(),
            ws == views(words@),
            k <= n,
            idx.len() == out@.len(),
            forall|o: int| 0 <= o < idx.len() ==> #[trigger] idx[o] < k && out@[o]@ == ws[idx[o] as int],
            forall|o1: int, o2: int| 0 <= o1 < o2 < idx.len() ==> #[trigger] idx[o1] < #[trigger] idx[o2],
            forall|o: int, j: int| 0 <= o < idx.len() && 0 <= j < idx[o] ==> #[trigger] ws[j] != (#[trigger] out@[o])@,
            forall|j: int| 0 <= j < k ==> #[trigger] views(out@).contains(ws[j]),
            views(out@).no_duplicates(),
        decreases n - k,
    {
        let mut found = false;
        let mut o: usize = 0;
        while o < out.len()
            invariant
                n == words@.len(),
                k < n,
                o <= out@.len(),
                found ==> views(out@).contains(ws[k as int]),
                !found ==> forall|q: int| 0 <= q < o ==> out@[q]@ != words@[k as int]@,
                ws == views(words@),
            decreases out@.len() - o,
        {
            if out[o] == words[k] {
                proof {
                    assert(views(out@)[o as int] == ws[k as int]);
                }
                found = true;
            }
            o = o + 1;
        }
        if !found {
            let ghost prior = out@;
            out.push(words[k].clone());
            proof {
                idx = idx.push(k);
                assert(views(out@) =~= views(prior).push(ws[k as int]));
                assert forall|o: int, j: int| 0 <= o < idx.len() && 0 <= j < idx[o] implies #[trigger] ws[j]
                    != (#[trigger] out@[o])@ by {
                    if o == idx.len() - 1 {
                        if j < k && ws[j] == ws[k as int] {
                            assert(views(prior).contains(ws[j]));
                            let q = choose|q: int| 0 <= q < prior.len() && views(prior)[q] == ws[j];
                            assert(prior[q]@ == words@[k as int]@);
                        }
                    } else {
                        assert(out@[o] == prior[o]);
                    }
                }
                assert forall|j: int| 0 <= j < k + 1 implies #[trigger] views(out@).contains(ws[j]) by {
                    if j < k {
                        assert(views(prior).contains(ws[j]));
                        let q = choose|q: int| 0 <= q < prior.len() && views(prior)[q] == ws[j];
                        assert(views(out@)[q] == ws[j]);
                    } else {
                        assert(views(out@)[prior.len() as int] == ws[j]);
                    }
                }
                assert forall|a: int, b: int| 0 <= a < views(out@).len() && 0 <= b < views(out@).len() && a != b
                    implies views(out@)[a] != views(out@)[b] by {
                    if a == prior.len() || b == prior.len() {
                        let q = if a == prior.len() { b } else { a };
                        assert(views(prior)[q] == prior[q]@);
                    } else {
                        assert(views(prior)[a] != views(prior)[b]);
                    }
                }
            }
        } else {
            proof {
                assert forall|j: int| 0 <= j < k + 1 implies #[trigger] views(out@).contains(ws[j]) by {
                }
            }
        }
        k = k + 1;
    }
    proof {
        assert(is_dedup(idx, views(out@), ws));
    }
    out
}

/// `idx` orders the words longest first, words of equal length in their
/// original order, and takes each word once.
pub open spec fn is_longest_first(idx: Seq<usize>, words: Seq<Seq<char>>) -> bool {
    &&& idx.len() == words.len()
    &&& idx.no_duplicates()
    &&& forall|o: int| 0 <= o < idx.len() ==> #[trigger] idx[o] < words.len()
    &&& forall|o1: int, o2: int|
        0 <= o1 < o2 < idx.len() ==> words[#[trigger] idx[o1] as int].len() >= words[#[trigger] idx[o2] as int].len()
            && (words[idx[o1] as int].len() == words[idx[o2] as int].len() ==> idx[o1] < idx[o2])
}

/// Inserting `k` at `pos` keeps the order longest first and stable, where
/// every index already placed is below `k`, the words before `pos` are at
/// least as long as word `k`, and the word at `pos` is shorter.
proof fn lemma_insert_in_order(before: Seq<usize>, pos: int, k: usize, words: Seq<Seq<char>>)
    requires
        0 <= pos <= before.len(),
        k < words.len(),
        before.no_duplicates(),
        forall|o: int| 0 <= o < before.len() ==> #[trigger] before[o] < k,
        forall|o: int| 0 <= o < pos ==> words[#[trigger] before[o] as int].len() >= words[k as int].len(),
        pos < before.len() ==> words[before[pos] as int].len() < words[k as int].len(),
        forall|o1: int, o2: int|
            0 <= o1 < o2 < before.len() ==> words[#[trigger] before[o1] as int].len() >= words[#[trigger] before[o2] as int].len()
                && (words[before[o1] as int].len() == words[before[o2] as int].len() ==> before[o1] < before[o2]),
    ensures
        ({
            let after = before.insert(pos, k);
            &&& after.len() == before.len() + 1
            &&& after.no_duplicates()
            &&& forall|o: int| 0 <= o < after.len() ==> #[trigger] after[o] <= k
            &&& forall|o1: int, o2: int|
                0 <= o1 < o2 < after.len() ==> words[#[trigger] after[o1] as int].len() >= words[#[trigger] after[o2] as int].len()
                    && (words[after[o1] as int].len() == words[after[o2] as int].len() ==> after[o1] < after[o2])
        }),
{
    before.insert_ensures(pos, k);
    let after = before.insert(pos, k);
    let len = words[k as int].len();
    assert forall|o: int| 0 <= o < after.len() implies #[trigger] after[o] <= k by {
        if o < pos {
            assert(after[o] == before[o]);
        } else if o > pos {
            assert(after[o] == before[o - 1]);
        }
    }
    assert forall|a: int, b: int| 0 <= a < after.len() && 0 <= b < after.len() && a != b implies after[a] != after[b] by {
        let x = if a < pos { before[a] } else if a == pos { k } else { before[a - 1] };
        let y = if b < pos { before[b] } else if b == pos { k } else { before[b - 1] };
        assert(after[a] == x && after[b] == y);
        if a != pos && b != pos {
            let ia = if a < pos { a } else { a - 1 };
            let ib = if b < pos { b } else { b - 1 };
            assert(before[ia] != before[ib]);
        }
    }
    assert forall|o1: int, o2: int| 0 <= o1 < o2 < after.len() implies words[#[trigger] after[o1] as int].len()
        >= words[#[trigger] after[o2] as int].len() && (words[after[o1] as int].len() == words[after[o2] as int].len()
        ==> after[o1] < after[o2]) by {
        if o1 < pos {
            assert(after[o1] == before[o1]);
            if o2 < pos {
                assert(after[o2] == before[o2]);
            } else if o2 > pos {
                assert(after[o2] == before[o2 - 1]);
                assert(words[before[pos] as int].len() < len);
                if o2 - 1 > pos {
                    assert(words[before[pos] as int].len() >= words[before[o2 - 1] as int].len());
                }
            }
        } else if o1 == pos {
            assert(after[o2] == before[o2 - 1]);
            assert(words[before[pos] as int].len() < len);
            if o2 - 1 > pos {
                assert(words[before[pos] as int].len() >= words[before[o2 - 1] as int].len());
            }
        } else {
            assert(after[o1] == before[o1 - 1]);
            assert(after[o2] == before[o2 - 1]);
        }
    }
}

/// The words, longest first; words of equal length keep their order.
pub fn sort_longest_first(words: &Vec<String>) -> (sorted: Vec<String>)
    ensures
        exists|idx: Seq<usize>|
            #[trigger] is_longest_first(idx, views(words@)) && sorted@.len() == idx.len() && forall|o: int|
                0 <= o < idx.len() ==> (#[trigger] sorted@[o])@ == words@[idx[o] as int]@,
{
    let ghost ws = views(words@);
    let n = words.len();
    let mut lens: Vec<usize> = Vec::new();
    let mut k: usize = 0;
    while k < n
        invariant
            n == words@.len(),
            k <= n,
            lens@.len() == k,
            forall|j: int| 0 <= j < k ==> #[trigger] lens@[j] == words@[j]@.len(),
        decreases n - k,
    {
        lens.push(words[k].as_str().unicode_len());
        k = k + 1;
    }
    let mut order: Vec<usize> = Vec::new();
    let mut k: usize = 0;
    while k < n
        invariant
            n == words@.len(),
            ws == views(words@),
            lens@.len() == n,
            forall|j: int| 0 <= j < n ==> #[trigger] lens@[j] == words@[j]@.len(),
            k <= n,
            order@.len() == k,
            order@.no_duplicates(),
            forall|o: int| 0 <= o < order@.len() ==> #[trigger] order@[o] < k,
            forall|o1: int, o2: int|
                0 <= o1 < o2 < order@.len() ==> ws[#[trigger] order@[o1] as int].len() >= ws[#[trigger] order@[o2] as int].len()
                    && (ws[order@[o1] as int].len() == ws[order@[o2] as int].len() ==> order@[o1] < order@[o2]),
        decreases n - k,
    {
        let len = lens[k];
        let mut pos: usize = 0;
        while pos < order.len() && lens[order[pos]] >= len
            invariant
                n == words@.len(),
                ws == views(words@),
                lens@.len() == n,
                forall|j: int| 0 <= j < n ==> #[trigger] lens@[j] == words@[j]@.len(),
                k < n,
                pos <= order@.len(),
                len == ws[k as int].len(),
                forall|o: int| 0 <= o < order@.len() ==> #[trigger] order@[o] < k,
                forall|o: int| 0 <= o < pos ==> ws[#[trigger] order@[o] as int].len() >= len,
            decreases order@.len() - pos,
        {
            pos = pos + 1;
        }
        proof {
            lemma_insert_in_order(order@, pos as int, k, ws);
        }
        order.insert(pos, k);
        proof {
            assert forall|o: int| 0 <= o < order@.len() implies #[trigger] order@[o] < k + 1 by {
            }
        }
        k = k + 1;
    }
    let mut sorted: Vec<String> = Vec::new();
    let mut o: usize = 0;
    while o < n
        invariant
            n == words@.len(),
            order@.len() == n,
            forall|q: int| 0 <= q < order@.len() ==> #[trigger] order@[q] < n,
            o <= n,
            sorted@.len() == o,
            forall|q: int| 0 <= q < o ==> (#[trigger] sorted@[q])@ == words@[order@[q] as int]@,
        decreases n - o,
    {
        sorted.push(words[order[o]].clone());
        o = o + 1;
    }
    proof {
        assert(is_longest_first(order@, ws));
    }
    sorted
}

} // verus!

//! Small exercises on strings: repeated letters, rearrangements, escaping.

use std::collections::HashMap;
use std::collections::HashSet;
use vstd::prelude::*;
use vstd::std_specs::iter::IteratorSpec;
use vstd::string::StringExecFns;

verus! {

/// `String::push` of the standard library, taken on trust: after the call the
/// text is what it was with `ch` added at its end.
pub assume_specification[ String::push ](text: &mut String, ch: char)
    ensures
        final(text)@ == old(text)@.push(ch),
;

/// The text with every space replaced by the three characters `%20`.
pub open spec fn escape_spaces(text: Seq<char>) -> Seq<char>
    decreases text.len(),
{
    if text.len() == 0 {
        Seq::empty()
    } else if text.last() == ' ' {
        escape_spaces(text.drop_last()) + seq!['%', '2', '0']
    } else {
        escape_spaces(text.drop_last()).push(text.last())
    }
}

/// Whether no character stands twice in the text.
pub fn assignment1(s: &str) -> (unique: bool)
    ensures
        unique == s@.no_duplicates(),
{
    broadcast use vstd::std_specs::hash::group_hash_axioms;
    broadcast use vstd::string::group_string_axioms;

    let mut letters: HashSet<u32> = HashSet::new();
    for c in walk: s.chars()
        invariant
            walk.seq() == s@,
            s@.take(walk.index()).no_duplicates(),
            forall|code: u32|
                letters@.contains(code) <==> exists|j: int|
                    0 <= j < walk.index() && #[trigger] s@[j] as u32 == code,
    {
        let ghost at = walk.index();
        let code = c as u32;
        if letters.contains(&code) {
            proof {
                let j = choose|j: int| 0 <= j < at && s@[j] as u32 == code;
                vstd::utf8::char_u32_cast(s@[j], code);
                vstd::utf8::char_u32_cast(s@[at], code);
            }
            return false;
        } else {
            letters.insert(code);
            proof {
                let front = s@.take(at + 1);
                assert forall|i: int, j: int|
                    0 <= i < front.len() && 0 <= j < front.len() && i != j implies front[i]
                    != front[j] by {
                    if i < at && j < at {
                        assert(s@.take(at)[i] != s@.take(at)[j]);
                    } else if i < at {
                        assert(s@[i] as u32 != code);
                    } else {
                        assert(s@[j] as u32 != code);
                    }
                }
            }
        }
    }
    proof {
        assert(s@.take(s@.len() as int) =~= s@);
    }
    true
}

/// The text with each space written as `%20`.
pub fn assignment3(s: &str) -> (escaped: String)
    ensures
        escaped@ == escape_spaces(s@),
{
    broadcast use vstd::string::group_string_axioms;

    let mut result = String::new();
    for c in walk: s.chars()
        invariant
            walk.seq() == s@,
            result@ == escape_spaces(s@.take(walk.index())),
    {
        proof {
            reveal_strlit("%20");
            let at = walk.index();
            assert(s@.take(at + 1).drop_last() =~= s@.take(at));
            assert("%20"@ =~= seq!['%', '2', '0']);
        }
        if c == ' ' {
            result.append("%20");
        } else {
            result.push(c);
        }
    }
    proof {
        assert(s@.take(s@.len() as int) =~= s@);
    }
    result
}

/// How often `c` stands in the text.
pub open spec fn occurrences(text: Seq<char>, c: char) -> nat
    decreases text.len(),
{
    if text.len() == 0 {
        0
    } else if text.last() == c {
        occurrences(text.drop_last(), c) + 1
    } else {
        occurrences(text.drop_last(), c)
    }
}

/// The number of places below `upto` at which the two texts differ.
pub open spec fn mismatches(a: Seq<char>, b: Seq<char>, upto: int) -> nat
    decreases upto,
{
    if upto <= 0 {
        0
    } else if a[upto - 1] != b[upto - 1] {
        mismatches(a, b, upto - 1) + 1
    } else {
        mismatches(a, b, upto - 1)
    }
}

/// What a table of counts says of `c`: its entry, or zero without one.
pub open spec fn counted(counts: Map<u32, usize>, c: char) -> nat {
    if counts.contains_key(c as u32) {
        counts[c as u32] as nat
    } else {
        0
    }
}

/// A character occurs in a text as often as the text is long, at most, and
/// at least once exactly when the text holds it.
pub proof fn lemma_occurrences_bounds(text: Seq<char>, c: char)
    ensures
        occurrences(text, c) <= text.len(),
        occurrences(text, c) > 0 <==> text.contains(c),
    decreases text.len(),
{
    if text.len() > 0 {
        let front = text.drop_last();
        lemma_occurrences_bounds(front, c);
        if front.contains(c) {
            let i = choose|i: int| 0 <= i < front.len() && front[i] == c;
            assert(text[i] == c);
        }
        if text.contains(c) && text.last() != c {
            let i = choose|i: int| 0 <= i < text.len() && text[i] == c;
            assert(front[i] == c);
        }
        if text.last() == c {
            assert(text[text.len() - 1] == c);
        }
    }
}

/// The characters of a text, one by one.
fn collect_chars(s: &str) -> (chars: Vec<char>)
    ensures
        chars@ == s@,
{
    broadcast use vstd::string::group_string_axioms;

    let mut chars: Vec<char> = Vec::new();
    for c in walk: s.chars()
        invariant
            walk.seq() == s@,
            chars@ == s@.take(walk.index()),
    {
        chars.push(c);
        proof {
            assert(chars@ =~= s@.take(walk.index() + 1));
        }
    }
    proof {
        assert(s@.take(s@.len() as int) =~= s@);
    }
    chars
}

/// Counts every character of the text, under its code point.
fn count_letters(chars: &Vec<char>) -> (counts: HashMap<u32, usize>)
    ensures
        forall|c: char| #[trigger] counted(counts@, c) == occurrences(chars@, c),
        forall|code: u32| #[trigger]
            counts@.contains_key(code) ==> counts@[code] > 0 && chars@.contains(code as char) && (
            code as char) as u32 == code,
{
    broadcast use vstd::std_specs::hash::group_hash_axioms;

    let mut counts: HashMap<u32, usize> = HashMap::new();
    let mut i: usize = 0;
    while i < chars.len()
        invariant
            i <= chars.len(),
            forall|c: char| #[trigger] counted(counts@, c) == occurrences(chars@.take(i as int), c),
            forall|code: u32| #[trigger]
                counts@.contains_key(code) ==> counts@[code] > 0 && chars@.take(i as int).contains(
                    code as char,
                ) && (code as char) as u32 == code,
        decreases chars.len() - i,
    {
        let letter = chars[i];
        let code = letter as u32;
        let seen: usize = match counts.get(&code) {
            Some(n) => *n,
            None => 0,
        };
        let ghost before = counts@;
        let ghost front = chars@.take(i as int);
        let ghost grown = chars@.take(i + 1);
        proof {
            assert(grown.drop_last() =~= front);
            assert(counted(before, letter) == occurrences(front, letter));
            lemma_occurrences_bounds(front, letter);
        }
        counts.insert(code, seen + 1);
        proof {
            assert forall|c: char| #[trigger] counted(counts@, c) == occurrences(grown, c) by {
                assert(counted(before, c) == occurrences(front, c));
                if c != letter {
                    vstd::utf8::char_u32_cast(c, c as u32);
                    vstd::utf8::char_u32_cast(letter, code);
                }
            }
            assert forall|k: u32| #[trigger] counts@.contains_key(k) implies counts@[k] > 0
                && grown.contains(k as char) && (k as char) as u32 == k by {
                if k == code {
                    vstd::utf8::char_u32_cast(letter, code);
                    assert(grown[i as int] == letter);
                } else {
                    assert(before.contains_key(k));
                    let j = choose|j: int| 0 <= j < front.len() && front[j] == k as char;
                    assert(grown[j] == k as char);
                }
            }
        }
        i += 1;
    }
    proof {
        assert(chars@.take(chars@.len() as int) =~= chars@);
    }
    counts
}

/// Whether the two tables agree on every character of `letters`.
fn agree_on(letters: &Vec<char>, a: &HashMap<u32, usize>, b: &HashMap<u32, usize>) -> (same: bool)
    ensures
        same == forall|i: int|
            0 <= i < letters.len() ==> counted(a@, #[trigger] letters[i]) == counted(
                b@,
                letters[i],
            ),
{
    broadcast use vstd::std_specs::hash::group_hash_axioms;

    let mut i: usize = 0;
    while i < letters.len()
        invariant
            i <= letters.len(),
            forall|j: int|
                0 <= j < i ==> counted(a@, #[trigger] letters[j]) == counted(b@, letters[j]),
        decreases letters.len() - i,
    {
        let code = letters[i] as u32;
        let in_a: usize = match a.get(&code) {
            Some(n) => *n,
            None => 0,
        };
        let in_b: usize = match b.get(&code) {
            Some(n) => *n,
            None => 0,
        };
        if in_a != in_b {
            assert(counted(a@, letters[i as int]) != counted(b@, letters[i as int]));
            return false;
        }
        i += 1;
    }
    true
}

/// Whether one text is the other with its characters in another order.
pub fn assignment2(first: &str, second: &str) -> (rearranged: bool)
    ensures
        rearranged == (first@.len() == second@.len() && forall|c: char|
            occurrences(first@, c) == occurrences(second@, c)),
{
    let first_chars = collect_chars(first);
    let second_chars = collect_chars(second);
    if first_chars.len() != second_chars.len() {
        return false;
    }
    let first_letters = count_letters(&first_chars);
    let second_letters = count_letters(&second_chars);
    let same = agree_on(&first_chars, &first_letters, &second_letters) && agree_on(
        &second_chars,
        &first_letters,
        &second_letters,
    );
    proof {
        if same {
            assert forall|c: char| occurrences(first@, c) == occurrences(second@, c) by {
                lemma_occurrences_bounds(first@, c);
                lemma_occurrences_bounds(second@, c);
                assert(counted(first_letters@, c) == occurrences(first@, c));
                assert(counted(second_letters@, c) == occurrences(second@, c));
                if first@.contains(c) {
                    let i = choose|i: int| 0 <= i < first@.len() && first@[i] == c;
                    assert(counted(first_letters@, first_chars[i]) == counted(
                        second_letters@,
                        first_chars[i],
                    ));
                } else if second@.contains(c) {
                    let i = choose|i: int| 0 <= i < second@.len() && second@[i] == c;
                    assert(counted(first_letters@, second_chars[i]) == counted(
                        second_letters@,
                        second_chars[i],
                    ));
                }
            }
        } else {
            let letters = if !(forall|i: int|
                0 <= i < first_chars.len() ==> counted(first_letters@, #[trigger] first_chars[i])
                    == counted(second_letters@, first_chars[i])) {
                first_chars@
            } else {
                second_chars@
            };
            let i = choose|i: int|
                0 <= i < letters.len() && counted(first_letters@, #[trigger] letters[i]) != counted(
                    second_letters@,
                    letters[i],
                );
            assert(counted(first_letters@, letters[i]) == occurrences(first@, letters[i]));
            assert(counted(second_letters@, letters[i]) == occurrences(second@, letters[i]));
        }
    }
    same
}

/// The character is no space and stands in the text an odd number of times.
pub open spec fn odd_letter(text: Seq<char>, c: char) -> bool {
    c != ' ' && occurrences(text, c) % 2 == 1
}

/// The entry under `code` is that of a character other than the space, and
/// it is odd.
pub open spec fn odd_entry(counts: Map<u32, usize>, code: u32) -> bool {
    code != 32 && counts[code] % 2 == 1
}

/// Whether the letters of the text, spaces left aside, can be put in an
/// order that reads the same from both ends: at most one of them occurs an
/// odd number of times.
pub fn assignment4(s: &str) -> (balanced: bool)
    ensures
        balanced == forall|c: char, d: char| odd_letter(s@, c) && odd_letter(s@, d) ==> c == d,
{
    broadcast use vstd::std_specs::hash::group_hash_axioms;

    let chars = collect_chars(s);
    let letters = count_letters(&chars);
    let mut found_odd = false;
    let ghost keys: Seq<u32> = vstd::std_specs::hash::spec_keys_iter(&letters).remaining().unref();
    let ghost mut done: int = 0;
    for code in walk: letters.keys()
        invariant
            chars@ == s@,
            walk.seq().unref() == keys,
            done == walk.index(),
            keys.to_set() == letters@.dom(),
            keys.no_duplicates(),
            forall|c: char| #[trigger] counted(letters@, c) == occurrences(chars@, c),
            forall|k: u32| #[trigger]
                letters@.contains_key(k) ==> letters@[k] > 0 && chars@.contains(k as char) && (
                k as char) as u32 == k,
            found_odd <==> exists|j: int| 0 <= j < done && odd_entry(letters@, #[trigger] keys[j]),
            forall|i: int, j: int|
                0 <= i < done && 0 <= j < done && odd_entry(letters@, #[trigger] keys[i])
                    && odd_entry(letters@, #[trigger] keys[j]) ==> i == j,
    {
        proof {
            assert(keys[done] == *code);
            assert(keys.to_set().contains(*code));
        }
        let count: usize = match letters.get(code) {
            Some(n) => *n,
            None => 0,
        };
        if *code != 32 && count % 2 == 1 {
            if found_odd {
                proof {
                    let j = choose|j: int| 0 <= j < done && odd_entry(letters@, keys[j]);
                    let k = keys[j];
                    assert(keys.to_set().contains(k));
                    let c = k as char;
                    let d = *code as char;
                    assert(counted(letters@, c) == occurrences(s@, c));
                    assert(counted(letters@, d) == occurrences(s@, d));
                    assert(odd_letter(s@, c) && odd_letter(s@, d) && c != d);
                }
                return false;
            }
            found_odd = true;
        }
        proof {
            done = done + 1;
        }
    }
    proof {
        assert forall|c: char, d: char| odd_letter(s@, c) && odd_letter(s@, d) implies c == d by {
            assert(counted(letters@, c) == occurrences(s@, c));
            assert(counted(letters@, d) == occurrences(s@, d));
            assert(keys.to_set().contains(c as u32));
            assert(keys.to_set().contains(d as u32));
            let i = choose|i: int| 0 <= i < keys.len() && keys[i] == c as u32;
            let j = choose|j: int| 0 <= j < keys.len() && keys[j] == d as u32;
            vstd::utf8::char_u32_cast(c, c as u32);
            vstd::utf8::char_u32_cast(d, d as u32);
            vstd::utf8::char_u32_cast(' ', 32);
            assert(odd_entry(letters@, keys[i]));
            assert(odd_entry(letters@, keys[j]));
        }
    }
    true
}

/// Whether the two texts, read side by side, differ at one place at most.
///
/// The texts are compared place by place over the length of `first`, so
/// `second` has to reach as far as the comparison goes: a `first` longer by
/// one is only taken where two differences show before `second` ends.
pub fn assignment5(first: &str, second: &str) -> (close: bool)
    requires
        first@.len() == second@.len() + 1 ==> mismatches(first@, second@, second@.len() as int)
            >= 2,
    ensures
        close == (first@.len() <= second@.len() <= first@.len() + 1 && mismatches(
            first@,
            second@,
            first@.len() as int,
        ) <= 1),
{
    let first_chars = collect_chars(first);
    let second_chars = collect_chars(second);
    let n: usize = first_chars.len();
    let m: usize = second_chars.len();
    if (n > m && n - m > 1) || (m > n && m - n > 1) {
        return false;
    }
    let mut difference = false;
    let mut i: usize = 0;
    while i < n
        invariant
            i <= n,
            n == first_chars.len(),
            m == second_chars.len(),
            first_chars@ == first@,
            second_chars@ == second@,
            n <= m + 1 && m <= n + 1,
            n == m + 1 ==> mismatches(first@, second@, m as int) >= 2,
            mismatches(first@, second@, i as int) == (if difference {
                1nat
            } else {
                0nat
            }),
        decreases n - i,
    {
        assert(i < m);
        if first_chars[i] != second_chars[i] {
            if difference {
                proof {
                    lemma_mismatches_grow(first@, second@, i + 1, n as int);
                }
                return false;
            }
            difference = true;
        }
        i += 1;
    }
    true
}

/// Looking further never finds fewer differences.
pub proof fn lemma_mismatches_grow(a: Seq<char>, b: Seq<char>, near: int, far: int)
    requires
        near <= far,
    ensures
        mismatches(a, b, near) <= mismatches(a, b, far),
    decreases far - near,
{
    if near < far {
        lemma_mismatches_grow(a, b, near, far - 1);
    }
}

} // verus!

//! Writing entries back as lines, and reading them again.

use vstd::prelude::*;
use crate::tree::{
    blank_end, counted, decimal, digit_value, digits_end, entry_depth, entry_name, first_fault, is_digit,
    is_white_space, last_at_depth, line_entry, line_fault, parent, prev_entry, tree_deps,
    tree_fault, tree_names, word_end,
};

verus! {

/// The character of a decimal digit.
pub open spec fn digit_char(k: nat) -> char {
    if k == 0 { '0' }
    else if k == 1 { '1' }
    else if k == 2 { '2' }
    else if k == 3 { '3' }
    else if k == 4 { '4' }
    else if k == 5 { '5' }
    else if k == 6 { '6' }
    else if k == 7 { '7' }
    else if k == 8 { '8' }
    else { '9' }
}

/// The decimal digits of `d`, most significant first.
pub open spec fn decimal_digits(d: nat) -> Seq<char>
    decreases d,
{
    if d < 10 {
        seq![digit_char(d)]
    } else {
        decimal_digits(d / 10).push(digit_char(d % 10))
    }
}

/// The line that writes an entry: its depth, one space, and its name.
pub open spec fn entry_line(d: nat, n: Seq<char>) -> Seq<char> {
    decimal_digits(d) + seq![' '] + n
}

/// The listing with each line that holds an entry written anew as
/// `entry_line` of its depth and name; empty lines stay as they are.
pub open spec fn flatten(ls: Seq<Seq<char>>) -> Seq<Seq<char>> {
    Seq::new(
        ls.len(),
        |i: int|
            if counted(ls, i) {
                entry_line(entry_depth(ls[i]), entry_name(ls[i]))
            } else {
                ls[i]
            },
    )
}

proof fn lemma_decimal_digits(d: nat)
    ensures
        decimal_digits(d).len() >= 1,
        forall|j: int| 0 <= j < decimal_digits(d).len() ==> is_digit(#[trigger] decimal_digits(d)[j]),
        decimal(decimal_digits(d)) == d,
    decreases d,
{
    assert(digit_value(digit_char(d % 10)) == d % 10 && is_digit(digit_char(d % 10)));
    if d < 10 {
        assert(decimal_digits(d).drop_last() =~= Seq::<char>::empty());
        assert(decimal(Seq::<char>::empty()) == 0);
    } else {
        lemma_decimal_digits(d / 10);
        let s = decimal_digits(d);
        assert(s.drop_last() =~= decimal_digits(d / 10));
        assert(d == (d / 10) * 10 + d % 10);
        assert forall|j: int| 0 <= j < s.len() implies is_digit(#[trigger] s[j]) by {
            if j < s.len() - 1 {
                assert(s[j] == decimal_digits(d / 10)[j]);
            }
        }
    }
}

proof fn lemma_digits_run(s: Seq<char>, i: int, k: int)
    requires
        0 <= i <= k <= s.len(),
        forall|j: int| i <= j < k ==> is_digit(#[trigger] s[j]),
        k == s.len() || !is_digit(s[k]),
    ensures
        digits_end(s, i) == k,
    decreases k - i,
{
    if i < k {
        lemma_digits_run(s, i + 1, k);
    }
}

proof fn lemma_word_run(s: Seq<char>, i: int, k: int)
    requires
        0 <= i <= k <= s.len(),
        forall|j: int| i <= j < k ==> !is_white_space(#[trigger] s[j]),
        k == s.len() || is_white_space(s[k]),
    ensures
        word_end(s, i) == k,
    decreases k - i,
{
    if i < k {
        lemma_word_run(s, i + 1, k);
    }
}

proof fn lemma_word_has_no_blank(s: Seq<char>, i: int)
    requires
        0 <= i <= s.len(),
    ensures
        i <= word_end(s, i) <= s.len(),
        forall|j: int| i <= j < word_end(s, i) ==> !is_white_space(#[trigger] s[j]),
    decreases s.len() - i,
{
    if i < s.len() && !is_white_space(s[i]) {
        lemma_word_has_no_blank(s, i + 1);
    }
}

proof fn lemma_blank_end_bounds(s: Seq<char>, i: int)
    requires
        0 <= i <= s.len(),
    ensures
        i <= blank_end(s, i) <= s.len(),
    decreases s.len() - i,
{
    if i < s.len() && is_white_space(s[i]) {
        lemma_blank_end_bounds(s, i + 1);
    }
}

proof fn lemma_digits_end_bounds(s: Seq<char>, i: int)
    requires
        0 <= i <= s.len(),
    ensures
        i <= digits_end(s, i) <= s.len(),
    decreases s.len() - i,
{
    if i < s.len() && is_digit(s[i]) {
        lemma_digits_end_bounds(s, i + 1);
    }
}

/// A name read from a line is a nonempty word.
proof fn lemma_entry_name_is_word(s: Seq<char>)
    requires
        line_entry(s) is Some,
    ensures
        entry_name(s).len() > 0,
        forall|j: int| 0 <= j < entry_name(s).len() ==> !is_white_space(#[trigger] entry_name(s)[j]),
{
    let k = digits_end(s, 0);
    lemma_digits_end_bounds(s, 0);
    let a = blank_end(s, k);
    lemma_blank_end_bounds(s, k);
    lemma_word_has_no_blank(s, a);
    let b = word_end(s, a);
    assert forall|j: int| 0 <= j < entry_name(s).len() implies !is_white_space(#[trigger] entry_name(s)[j]) by {
        assert(entry_name(s)[j] == s[a + j]);
    }
}

/// Reading the line written for an entry gives the entry back.
proof fn lemma_entry_line_reads_back(d: nat, n: Seq<char>)
    requires
        d <= usize::MAX,
        n.len() > 0,
        forall|j: int| 0 <= j < n.len() ==> !is_white_space(#[trigger] n[j]),
    ensures
        line_entry(entry_line(d, n)) == Some((d, n)),
{
    let ds = decimal_digits(d);
    lemma_decimal_digits(d);
    let s = entry_line(d, n);
    let l = ds.len() as int;
    assert forall|j: int| 0 <= j < l implies is_digit(#[trigger] s[j]) by {
        assert(s[j] == ds[j]);
    }
    assert(s[l] == ' ');
    lemma_digits_run(s, 0, l);
    assert(s.subrange(0, l) =~= ds);
    assert(s[l + 1] == n[0]);
    assert(blank_end(s, l + 1) == l + 1);
    assert(blank_end(s, l) == l + 1);
    assert forall|j: int| l + 1 <= j < s.len() implies !is_white_space(#[trigger] s[j]) by {
        assert(s[j] == n[j - l - 1]);
    }
    lemma_word_run(s, l + 1, s.len() as int);
    assert(s.subrange(l + 1, s.len() as int) =~= n);
}

proof fn lemma_sound_lines_parse(ls: Seq<Seq<char>>, p: int)
    requires
        0 <= p <= ls.len(),
        first_fault(ls, p) is None,
    ensures
        forall|i: int| 0 <= i < p && counted(ls, i) ==> (#[trigger] line_entry(ls[i])) is Some,
    decreases p,
{
    if p > 0 {
        lemma_sound_lines_parse(ls, p - 1);
    }
}

proof fn lemma_same_history(ls: Seq<Seq<char>>, fs: Seq<Seq<char>>, i: int)
    requires
        fs.len() == ls.len(),
        0 <= i <= ls.len(),
        forall|j: int| 0 <= j < ls.len() ==> counted(fs, j) == counted(ls, j),
        forall|j: int| 0 <= j < ls.len() && counted(ls, j) ==> #[trigger] line_entry(fs[j]) == line_entry(ls[j]),
    ensures
        prev_entry(fs, i) == prev_entry(ls, i),
        forall|d: nat| #[trigger] last_at_depth(fs, i, d) == last_at_depth(ls, i, d),
    decreases i,
{
    if i > 0 {
        lemma_same_history(ls, fs, i - 1);
        assert(counted(fs, i - 1) == counted(ls, i - 1));
        if counted(ls, i - 1) {
            assert(line_entry(fs[i - 1]) == line_entry(ls[i - 1]));
        }
        assert forall|d: nat| #[trigger] last_at_depth(fs, i, d) == last_at_depth(ls, i, d) by {
            assert(last_at_depth(fs, i - 1, d) == last_at_depth(ls, i - 1, d));
        }
    }
}

proof fn lemma_prev_entry_bounds(ls: Seq<Seq<char>>, i: int)
    requires
        0 < i <= ls.len(),
    ensures
        0 <= prev_entry(ls, i) < i,
        counted(ls, prev_entry(ls, i)),
    decreases i,
{
    if i > 1 && !counted(ls, i - 1) {
        lemma_prev_entry_bounds(ls, i - 1);
    }
}

proof fn lemma_last_at_depth_range(ls: Seq<Seq<char>>, i: int, d: nat)
    requires
        0 <= i,
    ensures
        -1 <= last_at_depth(ls, i, d) < i,
        last_at_depth(ls, i, d) >= 0 ==> counted(ls, last_at_depth(ls, i, d)),
    decreases i,
{
    if i > 0 {
        lemma_last_at_depth_range(ls, i - 1, d);
    }
}

proof fn lemma_same_faults(ls: Seq<Seq<char>>, fs: Seq<Seq<char>>, p: int)
    requires
        fs.len() == ls.len(),
        0 <= p <= ls.len(),
        forall|j: int| 0 <= j < ls.len() ==> counted(fs, j) == counted(ls, j),
        forall|j: int| 0 <= j < ls.len() && counted(ls, j) ==> #[trigger] line_entry(fs[j]) == line_entry(ls[j]),
    ensures
        first_fault(fs, p) == first_fault(ls, p),
    decreases p,
{
    if p > 0 {
        let q = p - 1;
        lemma_same_faults(ls, fs, q);
        if counted(ls, q) {
            assert(line_entry(fs[q]) == line_entry(ls[q]));
            if q > 0 {
                lemma_prev_entry_bounds(ls, q);
                lemma_same_history(ls, fs, q);
                let r = prev_entry(ls, q);
                assert(line_entry(fs[r]) == line_entry(ls[r]));
            }
        }
        assert(line_fault(fs, q) == line_fault(ls, q));
    }
}

/// Writing every entry of a sound listing back as `<depth> <name>` and reading
/// the result again gives a sound listing with the same names and the same
/// dependencies: each line is read the same way, so nothing is merged anew.
pub proof fn lemma_reparse_entries(ls: Seq<Seq<char>>)
    requires
        tree_fault(ls) is None,
    ensures
        tree_fault(flatten(ls)) is None,
        tree_names(flatten(ls)) == tree_names(ls),
        forall|n: Seq<char>| #[trigger] tree_deps(flatten(ls), n) == tree_deps(ls, n),
{
    let fs = flatten(ls);
    let len = ls.len() as int;
    lemma_sound_lines_parse(ls, len);
    assert forall|j: int| 0 <= j < len && counted(ls, j) implies #[trigger] line_entry(fs[j]) == line_entry(ls[j]) by {
        assert(line_entry(ls[j]) is Some);
        lemma_entry_name_is_word(ls[j]);
        lemma_entry_line_reads_back(entry_depth(ls[j]), entry_name(ls[j]));
    }
    assert forall|j: int| 0 <= j < len implies counted(fs, j) == counted(ls, j) by {
        if counted(ls, j) && j > 0 {
            lemma_decimal_digits(entry_depth(ls[j]));
            assert(fs[j].len() > 0);
        }
    }
    assert forall|i: int| 0 <= i <= len implies prev_entry(fs, i) == prev_entry(ls, i)
        && forall|d: nat| #[trigger] last_at_depth(fs, i, d) == last_at_depth(ls, i, d) by {
        lemma_same_history(ls, fs, i);
    }
    assert forall|j: int| 0 <= j < len && counted(ls, j) implies entry_depth(fs[j]) == entry_depth(ls[j])
        && entry_name(fs[j]) == entry_name(ls[j]) && #[trigger] parent(fs, j) == parent(ls, j) by {
        assert(line_entry(fs[j]) == line_entry(ls[j]));
        lemma_same_history(ls, fs, j);
    }
    lemma_same_faults(ls, fs, len);
    assert(first_fault(fs, len) == first_fault(ls, len));
    assert forall|n: Seq<char>| tree_names(fs).contains(n) == tree_names(ls).contains(n) by {
        if tree_names(fs).contains(n) {
            let i = choose|i: int| 0 <= i < len && counted(fs, i) && #[trigger] entry_name(fs[i]) == n;
            assert(entry_name(ls[i]) == n);
        }
        if tree_names(ls).contains(n) {
            let i = choose|i: int| 0 <= i < len && counted(ls, i) && #[trigger] entry_name(ls[i]) == n;
            assert(entry_name(fs[i]) == n);
        }
    }
    assert(tree_names(fs) =~= tree_names(ls));
    assert forall|n: Seq<char>| #[trigger] tree_deps(fs, n) == tree_deps(ls, n) by {
        assert forall|m: Seq<char>| tree_deps(fs, n).contains(m) == tree_deps(ls, n).contains(m) by {
            if tree_deps(fs, n).contains(m) {
                let j = choose|j: int|
                    0 < j < len && counted(fs, j) && 0 <= parent(fs, j) && entry_name(fs[parent(fs, j)]) == n
                        && #[trigger] entry_name(fs[j]) == m && m != n;
                assert(parent(fs, j) == parent(ls, j));
                lemma_last_at_depth_range(ls, j, (entry_depth(ls[j]) - 1) as nat);
                let pj = parent(ls, j);
                assert(entry_name(fs[pj]) == entry_name(ls[pj]));
                assert(entry_name(ls[j]) == m);
            }
            if tree_deps(ls, n).contains(m) {
                let j = choose|j: int|
                    0 < j < len && counted(ls, j) && 0 <= parent(ls, j) && entry_name(ls[parent(ls, j)]) == n
                        && #[trigger] entry_name(ls[j]) == m && m != n;
                assert(parent(fs, j) == parent(ls, j));
                lemma_last_at_depth_range(ls, j, (entry_depth(ls[j]) - 1) as nat);
                let pj = parent(ls, j);
                assert(entry_name(fs[pj]) == entry_name(ls[pj]));
                assert(entry_name(fs[j]) == m);
            }
        }
        assert(tree_deps(fs, n) =~= tree_deps(ls, n));
    }
}

} // verus!

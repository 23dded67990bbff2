//! Reading a depth-indexed dependency listing: each line is a decimal depth,
//! written directly before a package name, followed by anything.

use vstd::prelude::*;
use vstd::string::StrSliceExecFns;
use crate::package::Package;
use crate::merge::{
    all_wf, deps_in, deps_of_if, lemma_push, lemma_unique_deps, merge_into, names_in, unique_names,
};

verus! {

/// Why a listing could not be read; `line` is the index of the offending line.
#[derive(Debug, Clone, Copy, PartialEq, Eq, Structural)]
pub enum TreeError {
    /// The line has no leading depth, or no name after it.
    Parse { line: usize },
    /// The depth does not fit the tree read so far: a root not at depth 0, a
    /// second root, or a level skipped.
    Depth { line: usize },
}

/// An ASCII decimal digit.
pub open spec fn is_digit(c: char) -> bool {
    0x30 <= c as u32 <= 0x39
}

/// The numeric value of a decimal digit.
pub open spec fn digit_value(c: char) -> nat {
    (c as u32 - 0x30) as nat
}

/// A character with the Unicode `White_Space` property.
pub open spec fn is_white_space(c: char) -> bool {
    let u = c as u32;
    ||| 0x09 <= u <= 0x0d
    ||| u == 0x20
    ||| u == 0x85
    ||| u == 0xa0
    ||| u == 0x1680
    ||| 0x2000 <= u <= 0x200a
    ||| u == 0x2028
    ||| u == 0x2029
    ||| u == 0x202f
    ||| u == 0x205f
    ||| u == 0x3000
}

/// The end of the run of digits that starts at `i`.
pub open spec fn digits_end(s: Seq<char>, i: int) -> int
    decreases s.len() - i,
{
    if 0 <= i < s.len() && is_digit(s[i]) {
        digits_end(s, i + 1)
    } else {
        i
    }
}

/// The end of the run of white space that starts at `i`.
pub open spec fn blank_end(s: Seq<char>, i: int) -> int
    decreases s.len() - i,
{
    if 0 <= i < s.len() && is_white_space(s[i]) {
        blank_end(s, i + 1)
    } else {
        i
    }
}

/// The end of the run of characters other than white space that starts at `i`.
pub open spec fn word_end(s: Seq<char>, i: int) -> int
    decreases s.len() - i,
{
    if 0 <= i < s.len() && !is_white_space(s[i]) {
        word_end(s, i + 1)
    } else {
        i
    }
}

/// The number that a sequence of decimal digits writes.
pub open spec fn decimal(s: Seq<char>) -> nat
    decreases s.len(),
{
    if s.len() == 0 {
        0
    } else {
        decimal(s.drop_last()) * 10 + digit_value(s.last())
    }
}

/// The depth and the name that a line gives: the leading digits, read as a
/// number that fits in `usize`, and the first word after them. `None` where
/// there is no digit, the number is too large, or no word follows.
pub open spec fn line_entry(s: Seq<char>) -> Option<(nat, Seq<char>)> {
    let k = digits_end(s, 0);
    let a = blank_end(s, k);
    let b = word_end(s, a);
    if k == 0 || decimal(s.subrange(0, k)) > usize::MAX || a == b {
        None
    } else {
        Some((decimal(s.subrange(0, k)), s.subrange(a, b)))
    }
}

fn char_is_digit(c: char) -> (r: bool)
    ensures
        r == is_digit(c),
{
    '0' <= c && c <= '9'
}

fn char_is_white_space(c: char) -> (r: bool)
    ensures
        r == is_white_space(c),
{
    let u = c as u32;
    (0x09 <= u && u <= 0x0d) || u == 0x20 || u == 0x85 || u == 0xa0 || u == 0x1680 || (0x2000 <= u
        && u <= 0x200a) || u == 0x2028 || u == 0x2029 || u == 0x202f || u == 0x205f || u == 0x3000
}

proof fn lemma_decimal_grows(s: Seq<char>, i: int, j: int)
    requires
        0 <= i <= j <= s.len(),
    ensures
        decimal(s.subrange(0, i)) <= decimal(s.subrange(0, j)),
    decreases j - i,
{
    if i < j {
        lemma_decimal_grows(s, i, j - 1);
        assert(s.subrange(0, j).drop_last() =~= s.subrange(0, j - 1));
    }
}

/// Splits a line into its depth and its package name.
pub fn parse_line(line: &str) -> (r: Option<(usize, String)>)
    ensures
        match line_entry(line@) {
            None => r is None,
            Some((d, name)) => match r {
                Some((rd, rn)) => rd == d && rn@ == name,
                None => false,
            },
        },
{
    let ghost s = line@;
    let n = line.unicode_len();
    let mut k: usize = 0;
    let mut depth: usize = 0;
    let mut too_large = false;
    loop
        invariant
            s == line@,
            n == s.len(),
            k <= n,
            digits_end(s, 0) == digits_end(s, k as int),
            forall|j: int| 0 <= j < k ==> is_digit(#[trigger] s[j]),
            !too_large ==> depth == decimal(s.subrange(0, k as int)),
            too_large ==> decimal(s.subrange(0, k as int)) > usize::MAX,
        ensures
            k == digits_end(s, 0),
            !too_large ==> depth == decimal(s.subrange(0, k as int)),
            too_large ==> decimal(s.subrange(0, k as int)) > usize::MAX,
        decreases n - k,
    {
        if k >= n {
            break;
        }
        let c = line.get_char(k);
        if !char_is_digit(c) {
            break;
        }
        let d = (c as u32 - '0' as u32) as usize;
        proof {
            assert(s.subrange(0, k + 1).drop_last() =~= s.subrange(0, k as int));
            if too_large {
                lemma_decimal_grows(s, k as int, k + 1);
            }
        }
        if !too_large {
            match depth.checked_mul(10) {
                Some(m) => match m.checked_add(d) {
                    Some(v) => {
                        depth = v;
                    },
                    None => {
                        too_large = true;
                    },
                },
                None => {
                    too_large = true;
                },
            }
        }
        k = k + 1;
    }
    let mut a: usize = k;
    loop
        invariant
            s == line@,
            n == s.len(),
            k <= a <= n,
            blank_end(s, k as int) == blank_end(s, a as int),
        ensures
            a == blank_end(s, k as int),
        decreases n - a,
    {
        if a >= n || !char_is_white_space(line.get_char(a)) {
            break;
        }
        a = a + 1;
    }
    let mut b: usize = a;
    loop
        invariant
            s == line@,
            n == s.len(),
            a <= b <= n,
            word_end(s, a as int) == word_end(s, b as int),
        ensures
            b == word_end(s, a as int),
        decreases n - b,
    {
        if b >= n || char_is_white_space(line.get_char(b)) {
            break;
        }
        b = b + 1;
    }
    if k == 0 || too_large || a == b {
        None
    } else {
        Some((depth, line.substring_char(a, b).to_owned()))
    }
}

/// The views of the lines.
pub open spec fn views(lines: Seq<String>) -> Seq<Seq<char>> {
    lines.map_values(|l: String| l@)
}

/// Whether line `i` holds an entry: the first line always does, later ones
/// unless they are empty.
pub open spec fn counted(ls: Seq<Seq<char>>, i: int) -> bool {
    i == 0 || ls[i].len() > 0
}

/// The depth that a line gives.
pub open spec fn entry_depth(s: Seq<char>) -> nat {
    match line_entry(s) {
        Some((d, _)) => d,
        None => 0,
    }
}

/// The name that a line gives.
pub open spec fn entry_name(s: Seq<char>) -> Seq<char> {
    match line_entry(s) {
        Some((_, n)) => n,
        None => Seq::empty(),
    }
}

/// The last line before `i` that holds an entry, or -1.
pub open spec fn prev_entry(ls: Seq<Seq<char>>, i: int) -> int
    decreases i,
{
    if i <= 0 {
        -1
    } else if counted(ls, i - 1) {
        i - 1
    } else {
        prev_entry(ls, i - 1)
    }
}

/// The last line before `i` that holds an entry at depth `d`, or -1.
pub open spec fn last_at_depth(ls: Seq<Seq<char>>, i: int, d: nat) -> int
    decreases i,
{
    if i <= 0 {
        -1
    } else if counted(ls, i - 1) && entry_depth(ls[i - 1]) == d {
        i - 1
    } else {
        last_at_depth(ls, i - 1, d)
    }
}

/// The line of the parent of the entry on line `i`: the last entry before it
/// one level up.
pub open spec fn parent(ls: Seq<Seq<char>>, i: int) -> int {
    last_at_depth(ls, i, (entry_depth(ls[i]) - 1) as nat)
}

/// What is wrong with line `i`, given that the lines before it are sound.
pub open spec fn line_fault(ls: Seq<Seq<char>>, i: int) -> Option<TreeError> {
    if !counted(ls, i) {
        None
    } else if line_entry(ls[i]) is None {
        Some(TreeError::Parse { line: i as usize })
    } else if i == 0 {
        if entry_depth(ls[0]) != 0 {
            Some(TreeError::Depth { line: 0 })
        } else {
            None
        }
    } else if entry_depth(ls[i]) == 0 || entry_depth(ls[i]) > entry_depth(ls[prev_entry(ls, i)]) + 1 {
        Some(TreeError::Depth { line: i as usize })
    } else {
        None
    }
}

/// The first fault among the first `n` lines.
pub open spec fn first_fault(ls: Seq<Seq<char>>, n: int) -> Option<TreeError>
    decreases n,
{
    if n <= 0 {
        None
    } else {
        match first_fault(ls, n - 1) {
            Some(e) => Some(e),
            None => line_fault(ls, n - 1),
        }
    }
}

/// The fault of a listing, if any; a listing without lines has no root line.
pub open spec fn tree_fault(ls: Seq<Seq<char>>) -> Option<TreeError> {
    if ls.len() == 0 {
        Some(TreeError::Parse { line: 0 })
    } else {
        first_fault(ls, ls.len() as int)
    }
}

/// The names of the entries among the first `p` lines.
pub open spec fn names_upto(ls: Seq<Seq<char>>, p: int) -> Set<Seq<char>> {
    Set::new(|n: Seq<char>| exists|i: int| 0 <= i < p && counted(ls, i) && #[trigger] entry_name(ls[i]) == n)
}

/// The names of the children, among the first `p` lines, of the entries named
/// `n`, leaving out `n` itself.
pub open spec fn children_upto(ls: Seq<Seq<char>>, n: Seq<char>, p: int) -> Set<Seq<char>> {
    Set::new(
        |m: Seq<char>|
            exists|j: int|
                0 < j < p && counted(ls, j) && 0 <= parent(ls, j) && entry_name(ls[parent(ls, j)]) == n
                    && #[trigger] entry_name(ls[j]) == m && m != n,
    )
}

/// Every name that occurs in the listing.
pub open spec fn tree_names(ls: Seq<Seq<char>>) -> Set<Seq<char>> {
    names_upto(ls, ls.len() as int)
}

/// The dependencies of `n`: the union, over every entry named `n`, of the
/// names of its children, leaving out `n` itself.
pub open spec fn tree_deps(ls: Seq<Seq<char>>, n: Seq<char>) -> Set<Seq<char>> {
    children_upto(ls, n, ls.len() as int)
}

/// `out` holds one package for each name in the listing, with its dependencies.
pub open spec fn is_tree_mapping(ls: Seq<Seq<char>>, out: Seq<Package>) -> bool {
    &&& unique_names(out)
    &&& all_wf(out)
    &&& names_in(out) == tree_names(ls)
    &&& forall|k: int| 0 <= k < out.len() ==> (#[trigger] out[k]).dep_set() == tree_deps(ls, out[k].name@)
}

proof fn lemma_fault_stays(ls: Seq<Seq<char>>, p: int, q: int)
    requires
        0 <= p <= q,
        first_fault(ls, p) is Some,
    ensures
        first_fault(ls, q) == first_fault(ls, p),
    decreases q - p,
{
    if p < q {
        lemma_fault_stays(ls, p, q - 1);
    }
}

/// The open entries while reading: entry `k` of `idx` is the line of the
/// stack frame at depth `k`, the last entry at that depth so far.
pub open spec fn stack_matches(ls: Seq<Seq<char>>, i: int, stack: Seq<Package>, idx: Seq<int>) -> bool {
    &&& stack.len() == idx.len()
    &&& stack.len() >= 1
    &&& idx[stack.len() - 1] == prev_entry(ls, i)
    &&& forall|k: int|
        0 <= k < idx.len() ==> {
            &&& 0 <= #[trigger] idx[k] < i
            &&& counted(ls, idx[k])
            &&& line_entry(ls[idx[k]]) is Some
            &&& entry_depth(ls[idx[k]]) == k
            &&& idx[k] == last_at_depth(ls, i, k as nat)
            &&& stack[k].name@ == entry_name(ls[idx[k]])
        }
}

/// Reads a depth-indexed listing into one package per name, each with the
/// union of the dependencies seen at all its entries.
pub fn parse_tree(lines: &Vec<String>) -> (r: Result<Vec<Package>, TreeError>)
    ensures
        match tree_fault(views(lines@)) {
            Some(e) => r == Err::<Vec<Package>, TreeError>(e),
            None => match r {
                Ok(out) => is_tree_mapping(views(lines@), out@),
                Err(_) => false,
            },
        },
{
    let ghost ls = views(lines@);
    if lines.len() == 0 {
        return Err(TreeError::Parse { line: 0 });
    }
    assert(ls[0] == lines@[0]@);
    assert(first_fault(ls, 0) is None);
    let root = match parse_line(lines[0].as_str()) {
        Some((d, name)) => {
            if d != 0 {
                proof { lemma_fault_stays(ls, 1, ls.len() as int); }
                return Err(TreeError::Depth { line: 0 });
            }
            name
        },
        None => {
            proof { lemma_fault_stays(ls, 1, ls.len() as int); }
            return Err(TreeError::Parse { line: 0 });
        },
    };
    let mut stack: Vec<Package> = Vec::new();
    stack.push(Package::new(root.as_str()));
    let ghost mut idx: Seq<int> = seq![0int];
    let mut out: Vec<Package> = Vec::new();
    proof {
        assert(first_fault(ls, 1) is None);
        lemma_push(Seq::<Package>::empty(), stack@[0]);
        assert(Seq::<Package>::empty().push(stack@[0]) == stack@);
        assert forall|n: Seq<char>| names_upto(ls, 1).contains(n) == (n == root@) by {
            if names_upto(ls, 1).contains(n) {
                let i = choose|i: int| 0 <= i < 1 && counted(ls, i) && #[trigger] entry_name(ls[i]) == n;
                assert(i == 0);
            }
            if n == root@ {
                assert(entry_name(ls[0]) == n);
            }
        }
        assert(names_in(out@).union(names_in(stack@)) =~= names_upto(ls, 1));
        assert forall|n: Seq<char>| #[trigger] deps_in(out@, n).union(deps_in(stack@, n)) == children_upto(ls, n, 1) by {
            assert(deps_in(out@, n) =~= Set::empty());
            assert(deps_in(stack@, n) =~= Set::empty());
            assert(children_upto(ls, n, 1) =~= Set::empty());
        }
    }
    let mut i: usize = 1;
    while i < lines.len()
        invariant
            ls == views(lines@),
            1 <= i <= ls.len(),
            first_fault(ls, i as int) is None,
            stack_matches(ls, i as int, stack@, idx),
            unique_names(out@),
            all_wf(out@),
            all_wf(stack@),
            names_in(out@).union(names_in(stack@)) == names_upto(ls, i as int),
            forall|n: Seq<char>|
                #[trigger] deps_in(out@, n).union(deps_in(stack@, n)) == children_upto(ls, n, i as int),
        decreases ls.len() - i,
    {
        let ghost before_stack = stack@;
        let ghost before_out = out@;
        if lines[i].as_str().is_empty() {
            proof {
                assert(!counted(ls, i as int));
                assert forall|k: int| 0 <= k < idx.len() implies #[trigger] idx[k] == last_at_depth(ls, i + 1, k as nat) by {
                    assert(stack_matches(ls, i as int, stack@, idx));
                }
                assert forall|n: Seq<char>| names_upto(ls, i + 1).contains(n) == names_upto(ls, i as int).contains(n) by {
                    if names_upto(ls, i + 1).contains(n) {
                        let j = choose|j: int| 0 <= j < i + 1 && counted(ls, j) && #[trigger] entry_name(ls[j]) == n;
                        assert(j < i);
                    }
                }
                assert(names_upto(ls, i + 1) =~= names_upto(ls, i as int));
                assert forall|n: Seq<char>| #[trigger] deps_in(out@, n).union(deps_in(stack@, n)) == children_upto(ls, n, i + 1) by {
                    assert forall|m: Seq<char>| children_upto(ls, n, i + 1).contains(m) == children_upto(ls, n, i as int).contains(m) by {
                        if children_upto(ls, n, i + 1).contains(m) {
                            let j = choose|j: int| 0 < j < i + 1 && counted(ls, j) && 0 <= parent(ls, j) && entry_name(ls[parent(ls, j)]) == n
                                && #[trigger] entry_name(ls[j]) == m && m != n;
                            assert(j < i);
                        }
                    }
                    assert(children_upto(ls, n, i + 1) =~= children_upto(ls, n, i as int));
                }
            }
            i = i + 1;
            continue;
        }
        assert(ls[i as int] == lines@[i as int]@);
        let (d, name) = match parse_line(lines[i].as_str()) {
            Some(x) => x,
            None => {
                proof {
                    assert(first_fault(ls, i + 1) == Some(TreeError::Parse { line: i }));
                    lemma_fault_stays(ls, i + 1, ls.len() as int);
                }
                return Err(TreeError::Parse { line: i });
            },
        };
        if d == 0 || d > stack.len() {
            proof {
                assert(first_fault(ls, i + 1) == Some(TreeError::Depth { line: i }));
                lemma_fault_stays(ls, i + 1, ls.len() as int);
            }
            return Err(TreeError::Depth { line: i });
        }
        proof {
            assert(first_fault(ls, i + 1) is None);
        }
        while stack.len() > d
            invariant
                1 <= d <= stack@.len() <= before_stack.len(),
                stack@ == before_stack.subrange(0, stack@.len() as int),
                unique_names(out@),
                all_wf(out@),
                all_wf(stack@),
                names_in(out@).union(names_in(stack@)) == names_upto(ls, i as int),
                forall|n: Seq<char>|
                    #[trigger] deps_in(out@, n).union(deps_in(stack@, n)) == children_upto(ls, n, i as int),
            decreases stack@.len(),
        {
            let ghost s0 = stack@;
            let ghost o0 = out@;
            let p = stack.pop().unwrap();
            proof {
                assert(s0 == stack@.push(p));
                lemma_push(stack@, p);
                assert(p.wf());
            }
            merge_into(&mut out, p);
            proof {
                assert(stack@ =~= before_stack.subrange(0, stack@.len() as int));
                assert(names_in(out@).union(names_in(stack@)) =~= names_in(o0).union(names_in(s0)));
                assert forall|n: Seq<char>| #[trigger] deps_in(out@, n).union(deps_in(stack@, n)) == children_upto(ls, n, i as int) by {
                    assert(deps_in(out@, n).union(deps_in(stack@, n)) =~= deps_in(o0, n).union(deps_in(s0, n)));
                }
            }
        }
        let ghost s1 = stack@;
        let ghost o1 = out@;
        let mut top = stack.pop().unwrap();
        let ghost top0 = top;
        let ghost s2 = stack@;
        proof {
            assert(s1 == s2.push(top0));
            assert(top0.wf());
        }
        top.add_dep(name.clone());
        let ghost top1 = top;
        stack.push(top);
        let ghost s3 = stack@;
        let fresh = Package::new(name.as_str());
        let ghost fresh_g = fresh;
        stack.push(fresh);
        proof {
            let ghost pj = parent(ls, i as int);
            assert(stack_matches(ls, i as int, before_stack, idx));
            assert(s1 =~= before_stack.subrange(0, d as int));
            assert(pj == idx[d - 1]);
            assert(top0 == before_stack[d - 1]);
            lemma_push(s2, top0);
            lemma_push(s2, top1);
            lemma_push(s3, fresh_g);
            let new_idx = idx.subrange(0, d as int).push(i as int);
            assert forall|k: int| 0 <= k < new_idx.len() implies {
                &&& 0 <= #[trigger] new_idx[k] < i + 1
                &&& counted(ls, new_idx[k])
                &&& line_entry(ls[new_idx[k]]) is Some
                &&& entry_depth(ls[new_idx[k]]) == k
                &&& new_idx[k] == last_at_depth(ls, i + 1, k as nat)
                &&& stack@[k].name@ == entry_name(ls[new_idx[k]])
            } by {
                if k < d {
                    assert(new_idx[k] == idx[k]);
                    if k < d - 1 {
                        assert(stack@[k] == s2[k]);
                        assert(s2[k] == s1[k]);
                    }
                }
            }
            idx = new_idx;
            assert(stack_matches(ls, i + 1, stack@, idx));
            assert(all_wf(stack@)) by {
                assert forall|k: int| 0 <= k < stack@.len() implies (#[trigger] stack@[k]).wf() by {
                    if k < d - 1 {
                        assert(stack@[k] == s1[k]);
                    }
                }
            }
            assert forall|n: Seq<char>| names_upto(ls, i + 1).contains(n) == names_upto(ls, i as int).insert(name@).contains(n) by {
                if names_upto(ls, i + 1).contains(n) {
                    let j = choose|j: int| 0 <= j < i + 1 && counted(ls, j) && #[trigger] entry_name(ls[j]) == n;
                }
                if names_upto(ls, i as int).contains(n) {
                    let j = choose|j: int| 0 <= j < i && counted(ls, j) && #[trigger] entry_name(ls[j]) == n;
                }
                if n == name@ {
                    assert(entry_name(ls[i as int]) == n);
                }
            }
            assert(names_upto(ls, i + 1) =~= names_upto(ls, i as int).insert(name@));
            assert(names_in(out@).union(names_in(stack@)) =~= names_upto(ls, i + 1));
            assert forall|n: Seq<char>| #[trigger] deps_in(out@, n).union(deps_in(stack@, n)) == children_upto(ls, n, i + 1) by {
                let added = if top0.name@ == n && name@ != n { set![name@] } else { Set::<Seq<char>>::empty() };
                assert(deps_of_if(top1, n) =~= deps_of_if(top0, n).union(added));
                assert(deps_of_if(fresh_g, n) =~= Set::empty());
                assert forall|m: Seq<char>| children_upto(ls, n, i + 1).contains(m) == children_upto(ls, n, i as int).union(added).contains(m) by {
                    if children_upto(ls, n, i + 1).contains(m) {
                        let j = choose|j: int| 0 < j < i + 1 && counted(ls, j) && 0 <= parent(ls, j) && entry_name(ls[parent(ls, j)]) == n
                            && #[trigger] entry_name(ls[j]) == m && m != n;
                    }
                    if children_upto(ls, n, i as int).contains(m) {
                        let j = choose|j: int| 0 < j < i && counted(ls, j) && 0 <= parent(ls, j) && entry_name(ls[parent(ls, j)]) == n
                            && #[trigger] entry_name(ls[j]) == m && m != n;
                    }
                    if added.contains(m) {
                        assert(entry_name(ls[i as int]) == m);
                    }
                }
                assert(children_upto(ls, n, i + 1) =~= children_upto(ls, n, i as int).union(added));
                assert(deps_in(o1, n).union(deps_in(s1, n)) == children_upto(ls, n, i as int));
                assert(deps_in(s1, n) == deps_in(s2, n).union(deps_of_if(top0, n)));
                assert(deps_in(s3, n) == deps_in(s2, n).union(deps_of_if(top1, n)));
                assert(deps_in(stack@, n) == deps_in(s3, n).union(deps_of_if(fresh_g, n)));
                assert(out@ == o1);
                assert(deps_in(out@, n).union(deps_in(stack@, n)) =~= children_upto(ls, n, i + 1));
            }
        }
        i = i + 1;
    }
    while stack.len() > 0
        invariant
            unique_names(out@),
            all_wf(out@),
            all_wf(stack@),
            names_in(out@).union(names_in(stack@)) == names_upto(ls, ls.len() as int),
            forall|n: Seq<char>|
                #[trigger] deps_in(out@, n).union(deps_in(stack@, n)) == children_upto(ls, n, ls.len() as int),
        decreases stack@.len(),
    {
        let ghost s0 = stack@;
        let ghost o0 = out@;
        let p = stack.pop().unwrap();
        proof {
            assert(s0 == stack@.push(p));
            lemma_push(stack@, p);
            assert(p.wf());
            assert forall|k: int| 0 <= k < stack@.len() implies (#[trigger] stack@[k]).wf() by {
                assert(stack@[k] == s0[k]);
            }
        }
        merge_into(&mut out, p);
        proof {
            assert(names_in(out@).union(names_in(stack@)) =~= names_in(o0).union(names_in(s0)));
            assert forall|n: Seq<char>| #[trigger] deps_in(out@, n).union(deps_in(stack@, n)) == children_upto(ls, n, ls.len() as int) by {
                assert(deps_in(out@, n).union(deps_in(stack@, n)) =~= deps_in(o0, n).union(deps_in(s0, n)));
            }
        }
    }
    proof {
        assert(names_in(stack@) =~= Set::empty());
        assert(names_in(out@) =~= tree_names(ls));
        assert forall|k: int| 0 <= k < out@.len() implies (#[trigger] out@[k]).dep_set() == tree_deps(ls, out@[k].name@) by {
            let n = out@[k].name@;
            assert(deps_in(stack@, n) =~= Set::empty());
            assert(deps_in(out@, n).union(deps_in(stack@, n)) == children_upto(ls, n, ls.len() as int));
            assert(deps_in(out@, n).union(deps_in(stack@, n)) =~= deps_in(out@, n));
            lemma_unique_deps(out@, k);
        }
    }
    Ok(out)
}

/// The names of the children of the entry on line `i`, leaving out its own name.
pub open spec fn occurrence_deps(ls: Seq<Seq<char>>, i: int) -> Set<Seq<char>> {
    Set::new(
        |m: Seq<char>|
            exists|j: int|
                0 < j < ls.len() && counted(ls, j) && parent(ls, j) == i
                    && #[trigger] entry_name(ls[j]) == m && m != entry_name(ls[i]),
    )
}

proof fn lemma_last_at_depth_bounds(ls: Seq<Seq<char>>, i: int, d: nat)
    ensures
        -1 <= last_at_depth(ls, i, d) < i || (i <= 0 && last_at_depth(ls, i, d) == -1),
        last_at_depth(ls, i, d) >= 0 ==> counted(ls, last_at_depth(ls, i, d)),
    decreases i,
{
    if i > 0 {
        lemma_last_at_depth_bounds(ls, i - 1, d);
    }
}

/// Where a name has several entries in a listing, its dependencies in the
/// mapping read from it are the union of those gathered at each entry: every
/// entry's dependencies are among them, and each of them comes from an entry.
pub proof fn lemma_deps_union_of_entries(ls: Seq<Seq<char>>, out: Seq<Package>, k: int)
    requires
        is_tree_mapping(ls, out),
        0 <= k < out.len(),
    ensures
        forall|i: int|
            0 <= i < ls.len() && counted(ls, i) && entry_name(ls[i]) == out[k].name@
                ==> (#[trigger] occurrence_deps(ls, i)).subset_of(out[k].dep_set()),
        forall|m: Seq<char>|
            #[trigger] out[k].dep_set().contains(m) ==> exists|i: int|
                0 <= i < ls.len() && counted(ls, i) && entry_name(ls[i]) == out[k].name@
                    && #[trigger] occurrence_deps(ls, i).contains(m),
{
    let n = out[k].name@;
    assert(out[k].dep_set() == tree_deps(ls, n));
    assert forall|i: int|
        0 <= i < ls.len() && counted(ls, i) && entry_name(ls[i]) == n
            implies (#[trigger] occurrence_deps(ls, i)).subset_of(out[k].dep_set()) by {
        assert forall|m: Seq<char>| occurrence_deps(ls, i).contains(m) implies out[k].dep_set().contains(m) by {
            let j = choose|j: int|
                0 < j < ls.len() && counted(ls, j) && parent(ls, j) == i
                    && #[trigger] entry_name(ls[j]) == m && m != entry_name(ls[i]);
            assert(children_upto(ls, n, ls.len() as int).contains(m));
        }
    }
    assert forall|m: Seq<char>| #[trigger] out[k].dep_set().contains(m) implies exists|i: int|
        0 <= i < ls.len() && counted(ls, i) && entry_name(ls[i]) == n
            && #[trigger] occurrence_deps(ls, i).contains(m) by {
        assert(children_upto(ls, n, ls.len() as int).contains(m));
        let j = choose|j: int|
            0 < j < ls.len() && counted(ls, j) && 0 <= parent(ls, j) && entry_name(ls[parent(ls, j)]) == n
                && #[trigger] entry_name(ls[j]) == m && m != n;
        let i = parent(ls, j);
        lemma_last_at_depth_bounds(ls, j, (entry_depth(ls[j]) - 1) as nat);
        assert(occurrence_deps(ls, i).contains(m));
    }
}

/// No package of the mapping read from a listing depends on itself.
pub proof fn lemma_no_self_dependency(ls: Seq<Seq<char>>, out: Seq<Package>, k: int)
    requires
        is_tree_mapping(ls, out),
        0 <= k < out.len(),
    ensures
        !out[k].dep_set().contains(out[k].name@),
{
    assert(out[k].wf());
}

/// A listing whose first line has a depth other than 0 is refused at that line.
pub proof fn lemma_root_must_be_at_depth_zero(ls: Seq<Seq<char>>)
    requires
        ls.len() > 0,
        line_entry(ls[0]) is Some,
        entry_depth(ls[0]) != 0,
    ensures
        tree_fault(ls) == Some(TreeError::Depth { line: 0 }),
{
    assert(first_fault(ls, 0) is None);
    assert(first_fault(ls, 1) == Some(TreeError::Depth { line: 0 }));
    lemma_fault_stays(ls, 1, ls.len() as int);
}

} // verus!

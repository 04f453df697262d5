use vstd::prelude::*;

verus! {

/// The separator between a category name and a task name inside a state key.
pub open spec fn key_separator() -> Seq<char> {
    seq![':', ':']
}

/// The key under which a task's state and weekly choices are stored:
/// the category name, `::`, then the task name.
pub open spec fn spec_state_key(category: Seq<char>, task: Seq<char>) -> Seq<char> {
    category + key_separator() + task
}

/// Builds the key `"{category}::{task}"`.
pub fn state_key(category: &str, task: &str) -> (key: String)
    ensures
        key@ == spec_state_key(category@, task@),
{
    let mut key = String::from_str(category);
    key.append("::");
    key.append(task);
    proof {
        reveal_strlit("::");
    }
    key
}


/// Whether the separator `::` starts at position `i` of `key`.
pub open spec fn separator_at(key: Seq<char>, i: int) -> bool {
    0 <= i && i + 1 < key.len() && key[i] == ':' && key[i + 1] == ':'
}

/// Whether position `i` is the first at which the separator starts.
pub open spec fn first_separator_at(key: Seq<char>, i: int) -> bool {
    separator_at(key, i) && forall|j: int| 0 <= j < i ==> !#[trigger] separator_at(key, j)
}

/// The category part of a state key: what stands before the first `::`,
/// or nothing when the key holds no `::`.
pub open spec fn spec_key_category(key: Seq<char>) -> Option<Seq<char>> {
    if exists|i: int| separator_at(key, i) {
        Some(key.take(choose|i: int| first_separator_at(key, i)))
    } else {
        None
    }
}

proof fn lemma_first_separator_unique(key: Seq<char>, i: int, j: int)
    requires
        first_separator_at(key, i),
        first_separator_at(key, j),
    ensures
        i == j,
{
}

/// The text before the first `::` of `key`, if `key` holds one.
pub fn key_category(key: &String) -> (r: Option<String>)
    ensures
        match r {
            Some(c) => spec_key_category(key@) == Some(c@),
            None => spec_key_category(key@) is None,
        },
{
    let s = key.as_str();
    let n = s.unicode_len();
    let mut i: usize = 0;
    while i < n
        invariant
            n == key@.len(),
            i <= n,
            s@ == key@,
            forall|j: int| 0 <= j < i ==> !#[trigger] separator_at(key@, j),
        decreases n - i,
    {
        if i + 1 < n && s.get_char(i) == ':' && s.get_char(i + 1) == ':' {
            assert(first_separator_at(key@, i as int));
            proof {
                let c = choose|c: int| first_separator_at(key@, c);
                lemma_first_separator_unique(key@, c, i as int);
            }
            let cat = s.substring_char(0, i);
            return Some(String::from_str(cat));
        }
        i += 1;
    }
    assert forall|j: int| !separator_at(key@, j) by {
        if separator_at(key@, j) {
            assert(j < i);
        }
    }
    None
}

/// A category name with no `::` in it is what its state keys give back as
/// their category, whatever the task's name.
pub proof fn lemma_key_category_of_state_key(category: Seq<char>, task: Seq<char>)
    requires
        forall|i: int| !#[trigger] separator_at(category, i),
        category.len() == 0 || category.last() != ':',
    ensures
        spec_key_category(spec_state_key(category, task)) == Some(category),
{
    let key = spec_state_key(category, task);
    let n = category.len() as int;
    assert(key[n] == ':' && key[n + 1] == ':');
    assert(separator_at(key, n));
    assert forall|j: int| 0 <= j < n implies !#[trigger] separator_at(key, j) by {
        if separator_at(key, j) {
            if j + 1 < n {
                assert(separator_at(category, j));
            } else {
                assert(key[j] == category[j]);
                assert(category.last() == ':');
            }
        }
    }
    assert(first_separator_at(key, n));
    let c = choose|c: int| first_separator_at(key, c);
    lemma_first_separator_unique(key, c, n);
    assert(key.take(n) =~= category);
}

} // verus!

//! Lists of paths: put in path order, as `Vec::sort` orders `PathBuf`s made
//! of plain names, and cleared of repeats, as `Vec::dedup` does.
use vstd::prelude::*;

use crate::pathname::{components, lemma_pieces_less_irreflexive, lemma_pieces_less_transitive, path_less, path_less_exec};
use crate::paths::{same_folder, same_folder_exec};
use crate::text::{copy_string, chars_of, string_of};

verus! {

/// The texts of a list of strings.
pub open spec fn texts(v: Seq<String>) -> Seq<Seq<char>> {
    Seq::new(v.len(), |i: int| v[i]@)
}

/// No path of `s` sorts before one listed ahead of it.
pub open spec fn in_path_order(s: Seq<Seq<char>>) -> bool {
    forall|i: int, j: int| #![trigger s[i], s[j]] 0 <= i < j < s.len() ==> !path_less(s[j], s[i])
}

/// `s` with every path that names the same path as the one kept before it dropped.
pub open spec fn without_repeats(s: Seq<Seq<char>>) -> Seq<Seq<char>>
    decreases s.len(),
{
    if s.len() == 0 {
        s
    } else {
        let d = without_repeats(s.drop_last());
        if d.len() > 0 && components(d.last()) == components(s.last()) {
            d
        } else {
            d.push(s.last())
        }
    }
}

/// No path sorts before itself, and the path order is transitive.
pub proof fn lemma_path_order(a: Seq<char>, b: Seq<char>, c: Seq<char>)
    ensures
        !path_less(a, a),
        path_less(a, b) && path_less(b, c) ==> path_less(a, c),
{
    lemma_pieces_less_irreflexive(components(a));
    if path_less(a, b) && path_less(b, c) {
        lemma_pieces_less_transitive(components(a), components(b), components(c));
    }
}

/// Inserting `x` before the first path it sorts before keeps a list in order.
proof fn lemma_insert_in_path_order(old: Seq<Seq<char>>, p: int, x: Seq<char>)
    requires
        in_path_order(old),
        0 <= p <= old.len(),
        forall|q: int| 0 <= q < p ==> !path_less(x, #[trigger] old[q]),
        p < old.len() ==> path_less(x, old[p]),
    ensures
        in_path_order(old.insert(p, x)),
{
    old.insert_ensures(p, x);
    let new = old.insert(p, x);
    assert forall|i: int, j: int| #![trigger new[i], new[j]] 0 <= i < j < new.len() implies !path_less(new[j], new[i]) by {
        if j < p {
            assert(new[i] == old[i] && new[j] == old[j]);
        } else if j == p {
            assert(new[i] == old[i]);
        } else if i == p {
            assert(new[j] == old[j - 1]);
            lemma_path_order(old[j - 1], x, old[p]);
            lemma_path_order(old[p], old[p], old[p]);
            if j - 1 > p {
                assert(!path_less(old[j - 1], old[p]));
            }
        } else if i < p {
            assert(new[i] == old[i] && new[j] == old[j - 1]);
        } else {
            assert(new[i] == old[i - 1] && new[j] == old[j - 1]);
        }
    }
}


/// Where `item` goes in a list in path order: before the first path it
/// sorts before, so after every path it does not.
fn place_for(sorted: &Vec<String>, item: &String) -> (p: usize)
    ensures
        p <= sorted.len(),
        forall|q: int| 0 <= q < p ==> !path_less(item@, #[trigger] texts(sorted@)[q]),
        p < sorted.len() ==> path_less(item@, texts(sorted@)[p as int]),
{
    let mut p: usize = 0;
    while p < sorted.len()
        invariant
            p <= sorted.len(),
            forall|q: int| 0 <= q < p ==> !path_less(item@, #[trigger] texts(sorted@)[q]),
        decreases sorted.len() - p,
    {
        if path_less_exec(item.as_str(), sorted[p].as_str()) {
            return p;
        }
        p = p + 1;
    }
    p
}

/// `paths` in path order; paths that name the same path keep their order.
pub fn sort_paths(paths: &Vec<String>) -> (r: Vec<String>)
    ensures
        in_path_order(texts(r@)),
        texts(r@).to_multiset() == texts(paths@).to_multiset(),
{
    let mut sorted: Vec<String> = Vec::new();
    let mut k: usize = 0;
    assert(texts(paths@).subrange(0, 0) =~= texts(sorted@));
    while k < paths.len()
        invariant
            k <= paths.len(),
            in_path_order(texts(sorted@)),
            texts(sorted@).to_multiset() == texts(paths@).subrange(0, k as int).to_multiset(),
        decreases paths.len() - k,
    {
        let item = copy_string(&paths[k]);
        let p = place_for(&sorted, &item);
        let ghost old_v = texts(sorted@);
        proof {
            lemma_insert_in_path_order(old_v, p as int, item@);
            vstd::seq_lib::to_multiset_insert(old_v, p as int, item@);
            let grown = texts(paths@).subrange(0, k + 1);
            assert(grown =~= texts(paths@).subrange(0, k as int).push(paths@[k as int]@));
            vstd::seq_lib::to_multiset_build(texts(paths@).subrange(0, k as int), paths@[k as int]@);
        }
        sorted.insert(p, item);
        proof {
            old_v.insert_ensures(p as int, item@);
            assert(texts(sorted@) =~= old_v.insert(p as int, item@));
        }
        k = k + 1;
    }
    assert(texts(paths@).subrange(0, k as int) =~= texts(paths@));
    sorted
}

/// `paths` without a path that names the same path as the one kept before it.
pub fn dedup_paths(paths: &Vec<String>) -> (r: Vec<String>)
    ensures
        texts(r@) == without_repeats(texts(paths@)),
{
    let mut kept: Vec<String> = Vec::new();
    let mut k: usize = 0;
    assert(texts(paths@).subrange(0, 0) =~= Seq::<Seq<char>>::empty());
    assert(texts(kept@) =~= Seq::<Seq<char>>::empty());
    while k < paths.len()
        invariant
            k <= paths.len(),
            texts(kept@) == without_repeats(texts(paths@).subrange(0, k as int)),
        decreases paths.len() - k,
    {
        let ghost prefix = texts(paths@).subrange(0, k + 1);
        assert(prefix.drop_last() =~= texts(paths@).subrange(0, k as int));
        assert(prefix.last() == paths@[k as int]@);
        let repeat = if kept.len() > 0 {
            let last = chars_of(kept[kept.len() - 1].as_str());
            let next = chars_of(paths[k].as_str());
            assert(texts(kept@).last() == kept@[kept.len() - 1]@);
            same_folder_exec(&last, &next)
        } else {
            false
        };
        if !repeat {
            let ghost before = texts(kept@);
            kept.push(copy_string(&paths[k]));
            assert(texts(kept@) =~= before.push(paths@[k as int]@));
        }
        k = k + 1;
    }
    assert(texts(paths@).subrange(0, k as int) =~= texts(paths@));
    kept
}

} // verus!

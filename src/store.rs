use vstd::prelude::*;

verus! {

#[verifier::external_type_specification]
#[verifier::external_body]
pub struct ExYaml(yaml_rust::Yaml);

#[verifier::external_type_specification]
#[verifier::external_body]
#[verifier::reject_recursive_types(K)]
#[verifier::reject_recursive_types(V)]
#[verifier::reject_recursive_types(S)]
pub struct ExImHashMap<K, V, S>(im::HashMap<K, V, S>);

/// One file: its parsed metadata documents and its content bytes, with the
/// front matter taken off.
#[derive(Debug, Clone)]
pub struct ShFile {
    pub frontmatter: Vec<yaml_rust::Yaml>,
    pub content: Vec<u8>,
}

/// The file store: relative path to file record, shared between versions.
pub type Files = im::HashMap<String, ShFile>;

/// What a store holds, keyed by the characters of each relative path.
pub uninterp spec fn files_of(m: Files) -> Map<Seq<char>, ShFile>;

/// Relies on im::HashMap::new: the new map is empty.
#[verifier::external_body]
pub(crate) fn store_new() -> (r: Files)
    ensures
        files_of(r).dom() =~= Set::empty(),
{
    im::HashMap::new()
}

/// Relies on im::HashMap::insert: the key now maps to the value, every
/// other entry stays.
#[verifier::external_body]
pub(crate) fn store_insert(m: &mut Files, k: String, v: ShFile)
    ensures
        files_of(*final(m)) == files_of(*old(m)).insert(k@, v),
{
    m.insert(k, v);
}

/// Relies on im::HashMap::clone: the copy holds the same entries.
#[verifier::external_body]
pub(crate) fn store_clone(m: &Files) -> (r: Files)
    ensures
        files_of(r) == files_of(*m),
{
    m.clone()
}

/// Relies on im::HashMap::iter: every entry once, in an order that the
/// hasher decides; each is copied out.
#[verifier::external_body]
pub(crate) fn store_entries(m: &Files) -> (r: Vec<(String, ShFile)>)
    ensures
        r@.len() == files_of(*m).len(),
        forall|key: Seq<char>|
            #[trigger] files_of(*m).contains_key(key) ==> exists|i: int|
                0 <= i < r@.len() && r@[i].0@ == key,
        forall|i: int|
            0 <= i < r@.len() ==> files_of(*m).contains_key(#[trigger] r@[i].0@) && r@[i].1
                == files_of(*m)[r@[i].0@],
        forall|i: int, j: int| 0 <= i < j < r@.len() ==> r@[i].0@ != r@[j].0@,
{
    m.iter().map(|(k, v)| (k.clone(), v.clone())).collect()
}

/// Every entry of `updates` written over `base`: entries of `updates` win,
/// all other entries of `base` stay.
pub open spec fn merged(
    updates: Map<Seq<char>, ShFile>,
    base: Map<Seq<char>, ShFile>,
) -> Map<Seq<char>, ShFile> {
    base.union_prefer_right(updates)
}

/// The keys of the entries of `s` from index `lo` on.
pub open spec fn keys_from(s: Seq<(String, ShFile)>, lo: int) -> Set<Seq<char>> {
    Set::new(|key: Seq<char>| exists|k: int| lo <= k < s.len() && s[k].0@ == key)
}

/// Writes every entry of `updates` over `base`, returning the new store; the
/// stores given are not changed.
pub fn merge(updates: &Files, base: &Files) -> (r: Files)
    ensures
        files_of(r) == merged(files_of(*updates), files_of(*base)),
{
    let mut entries = store_entries(updates);
    let mut out = store_clone(base);
    let ghost u = files_of(*updates);
    let ghost all = entries@;
    while entries.len() > 0
        invariant
            entries@ == all.take(entries@.len() as int),
            entries@.len() <= all.len(),
            u == files_of(*updates),
            forall|k: int|
                0 <= k < all.len() ==> u.contains_key(#[trigger] all[k].0@) && all[k].1 == u[all[k].0@],
            files_of(out) == files_of(*base).union_prefer_right(
                u.restrict(keys_from(all, entries@.len() as int)),
            ),
        decreases entries.len(),
    {
        let ghost j = entries@.len() - 1;
        let ghost before = files_of(out);
        let (key, file) = entries.pop().unwrap();
        proof {
            assert(all[j] == (key, file));
            assert(keys_from(all, j) =~= keys_from(all, j + 1).insert(key@)) by {
                assert forall|x: Seq<char>| keys_from(all, j).contains(x) implies
                    keys_from(all, j + 1).insert(key@).contains(x) by {
                    let k = choose|k: int| j <= k < all.len() && all[k].0@ == x;
                    if k > j {
                        assert(keys_from(all, j + 1).contains(x));
                    }
                }
                assert forall|x: Seq<char>| keys_from(all, j + 1).insert(key@).contains(x)
                    implies keys_from(all, j).contains(x) by {
                    if x != key@ {
                        let k = choose|k: int| j + 1 <= k < all.len() && all[k].0@ == x;
                        assert(j <= k < all.len() && all[k].0@ == x);
                    } else {
                        assert(j <= j < all.len() && all[j].0@ == x);
                    }
                }
            }
            assert(entries@ =~= all.take(j));
        }
        store_insert(&mut out, key, file);
        proof {
            assert(files_of(out) =~= files_of(*base).union_prefer_right(
                u.restrict(keys_from(all, j)),
            ));
        }
    }
    proof {
        assert(keys_from(all, 0) =~= u.dom()) by {
            assert forall|x: Seq<char>| u.dom().contains(x) implies keys_from(all, 0).contains(x) by {
                assert(u.contains_key(x));
            }
        }
        assert(u.restrict(keys_from(all, 0)) =~= u);
    }
    out
}

} // verus!

//! Locating the JSON files of a capture directory tree.
//!
//! CDX data arrives as directory trees of JSON files, laid out differently by each tool that
//! produced them, and every consumer needs the same thing from them: the JSON files underneath, in
//! a predictable order. [`json_files`] is that walk, parameterized by how deep it descends
//! ([`Depth`]) and how the results are ordered ([`Order`]).
use vstd::prelude::*;

use crate::legacy;
use crate::legacy::find_file_name;
use crate::text;
use crate::text::{chars_of, comes_before, push_all, same_chars, split_chars, starts_at};

verus! {

/// How far below each root a walk descends.
#[derive(Clone, Copy, Debug, PartialEq, Eq, Structural)]
pub enum Depth {
    /// Only the entries directly inside each root.
    Shallow,
    /// Every subdirectory, recursively.
    Recursive,
}

/// The order in which collected paths are returned.
#[derive(Clone, Copy, Debug, PartialEq, Eq, Structural)]
pub enum Order {
    /// Ascending by path, which is stable across runs and independent of the file system.
    Path,
    /// Most recently modified first, which puts the newest CDX data first.
    NewestFirst,
}

/// What stands at a path.
#[derive(Debug, PartialEq, Eq)]
pub enum Node {
    /// A file.
    File {
        /// The path of the file.
        path: String,
        /// When the file was last modified, in nanoseconds since the epoch, or `None` if that cannot be
        /// read.
        modified: Option<i128>,
    },
    /// A directory.
    Directory {
        /// The entries of the directory, in the order in which they are read.
        entries: Vec<Node>,
    },
    /// A directory that cannot be read, or nothing at all.
    Unreadable {
        /// The path.
        path: String,
    },
    /// Anything else, such as a symbolic link.
    Other {
        /// The path.
        path: String,
    },
}

/// A failure to walk a tree.
#[derive(Debug, PartialEq, Eq)]
pub enum Error {
    /// A directory cannot be read.
    Unreadable {
        /// The path of the directory.
        path: String,
    },
    /// The modification time of a file cannot be read.
    UnknownModificationTime {
        /// The path of the file.
        path: String,
    },
}

/// A file that was found.
pub struct Found {
    /// The path of the file.
    pub path: Seq<char>,
    /// When it was last modified.
    pub modified: Option<int>,
}

/// What a walk finds.
pub enum Walk {
    /// The files, in the order in which they are met.
    Files(Seq<Found>),
    /// The first path that cannot be read.
    Failed(Seq<char>),
}

/// Whether a path ends in a `.json` extension.
pub open spec fn is_json(path: Seq<char>) -> bool {
    match legacy::file_name(path) {
        Some(name) => name.len() > 5 && name.skip(name.len() - 5) == ".json"@,
        None => false,
    }
}

/// Whether a path ends in a `.json` extension.
pub fn has_json_extension(path: &str) -> (found: bool)
    ensures
        found == is_json(path@),
{
    match find_file_name(path) {
        Some(name) => {
            proof {
                reveal_strlit(".json");
                if name@.len() > 5 {
                    assert(name@.skip(name@.len() - 5) =~= name@.subrange(
                        name@.len() - 5,
                        name@.len() as int,
                    ));
                }
            }
            name.len() > 5 && starts_at(&name, name.len() - 5, ".json")
        },
        None => false,
    }
}

/// The components of a path that name something.
pub open spec fn named(components: Seq<Seq<char>>) -> Seq<Seq<char>>
    decreases components.len(),
{
    if components.len() == 0 {
        Seq::empty()
    } else if legacy::is_void(components.last()) {
        named(components.drop_last())
    } else {
        named(components.drop_last()).push(components.last())
    }
}

/// Whether a path is that of a `.json` file in a directory named `data`, as capture records are laid out.
pub open spec fn is_data_json(path: Seq<char>) -> bool {
    let components = named(text::split(path, '/'));
    is_json(path) && components.len() >= 2 && components[components.len() - 2] == "data"@
}

/// Whether a path, taken below the directory that is searched, is that of a `.json` file in a directory
/// named `data`, as capture records are laid out.
pub fn is_cdx_file(path: &str) -> (found: bool)
    ensures
        found == is_data_json(path@),
{
    if !has_json_extension(path) {
        return false;
    }
    let chars = chars_of(path);
    let components = split_chars(&chars, '/');
    let ghost views = text::char_views(components@);
    let ghost all = named(views);
    let current = chars_of(".");
    let data = chars_of("data");
    let mut passed = false;
    let mut n: usize = components.len();
    assert(views.take(n as int) =~= views);
    while n > 0
        invariant
            n <= components@.len(),
            views == text::char_views(components@),
            views == text::split(path@, '/'),
            all == named(views),
            is_json(path@),
            current@ == "."@,
            data@ == "data"@,
            all == named(views.take(n as int)) + (if passed {
                seq![all.last()]
            } else {
                Seq::empty()
            }),
            passed ==> all.len() > 0,
        decreases n,
    {
        let component = &components[n - 1];
        let ghost front = views.take(n as int);
        proof {
            assert(front.last() == component@);
            assert(front.drop_last() =~= views.take(n - 1));
        }
        if component.len() > 0 && !same_chars(component, &current) {
            if passed {
                assert(all[all.len() - 2] == component@);
                return same_chars(component, &data);
            }
            passed = true;
            assert(all.last() == component@);
            assert(all =~= named(views.take(n - 1)) + seq![all.last()]);
        }
        n = n - 1;
    }
    assert(views.take(0) =~= Seq::empty());
    assert(all.len() < 2);
    false
}

/// The modification time as a number.
pub open spec fn time_view(modified: Option<i128>) -> Option<int> {
    match modified {
        Some(modified) => Some(modified as int),
        None => None,
    }
}

/// One walk after another.
pub open spec fn then_walk(first: Walk, second: Walk) -> Walk {
    match first {
        Walk::Failed(path) => Walk::Failed(path),
        Walk::Files(files) => match second {
            Walk::Failed(path) => Walk::Failed(path),
            Walk::Files(more) => Walk::Files(files + more),
        },
    }
}

/// What a walk finds at or under a node. A root is always read; a directory inside one only where the
/// walk is recursive.
pub open spec fn walk(node: Node, depth: Depth, is_root: bool) -> Walk
    decreases node,
{
    match node {
        Node::File { path, modified } => if is_json(path@) {
            Walk::Files(seq![Found { path: path@, modified: time_view(modified) }])
        } else {
            Walk::Files(Seq::empty())
        },
        Node::Directory { entries } => if is_root || depth is Recursive {
            walk_all(entries@, entries@.len(), depth, false)
        } else {
            Walk::Files(Seq::empty())
        },
        Node::Unreadable { path } => if is_root || depth is Recursive {
            Walk::Failed(path@)
        } else {
            Walk::Files(Seq::empty())
        },
        Node::Other { path } => if is_root {
            Walk::Failed(path@)
        } else {
            Walk::Files(Seq::empty())
        },
    }
}

/// What a walk finds at or under the first `n` nodes.
pub open spec fn walk_all(nodes: Seq<Node>, n: nat, depth: Depth, are_roots: bool) -> Walk
    decreases nodes, n,
{
    if n == 0 || n > nodes.len() {
        Walk::Files(Seq::empty())
    } else {
        then_walk(
            walk_all(nodes, (n - 1) as nat, depth, are_roots),
            walk(nodes[n - 1], depth, are_roots),
        )
    }
}

/// A file that was found, with the key that its path is ordered by.
struct Item {
    key: Vec<char>,
    path: String,
    modified: Option<i128>,
}

impl Item {
    spec fn found(&self) -> Found {
        Found { path: self.path@, modified: time_view(self.modified) }
    }

    spec fn is_keyed(&self) -> bool {
        self.key@ == path_key(self.path@)
    }
}

/// How one component of a path is ordered: first the root, then `.` in front, then `..`, then names.
/// Empty components and `.` further on count for nothing.
pub open spec fn component_key(components: Seq<Seq<char>>, i: int) -> Seq<char> {
    let component = components[i];
    if component.len() == 0 {
        if i == 0 && components.len() > 1 {
            seq!['\u{1}', '\u{0}']
        } else {
            Seq::empty()
        }
    } else if component == "."@ {
        if i == 0 {
            seq!['\u{2}', '\u{0}']
        } else {
            Seq::empty()
        }
    } else if component == ".."@ {
        seq!['\u{3}', '\u{0}']
    } else {
        seq!['\u{4}'] + component + seq!['\u{0}']
    }
}

/// How the first `n` components of a path are ordered.
pub open spec fn components_key(components: Seq<Seq<char>>, n: nat) -> Seq<char>
    decreases n,
{
    if n == 0 {
        Seq::empty()
    } else {
        components_key(components, (n - 1) as nat) + component_key(components, n - 1)
    }
}

/// A text that is ordered as a path is: component by component.
pub open spec fn path_key(path: Seq<char>) -> Seq<char> {
    components_key(text::split(path, '/'), text::split(path, '/').len())
}

/// A text that is ordered as a path is.
fn make_key(path: &str) -> (key: Vec<char>)
    ensures
        key@ == path_key(path@),
{
    let chars = chars_of(path);
    let components = split_chars(&chars, '/');
    let ghost views = text::char_views(components@);
    let current = chars_of(".");
    let parent = chars_of("..");
    let mut key: Vec<char> = Vec::new();
    let mut i: usize = 0;
    while i < components.len()
        invariant
            i <= components@.len(),
            views == text::char_views(components@),
            current@ == "."@,
            parent@ == ".."@,
            key@ == components_key(views, i as nat),
        decreases components@.len() - i,
    {
        let component = &components[i];
        let ghost before = key@;
        assert(views[i as int] == component@);
        if component.len() == 0 {
            if i == 0 && components.len() > 1 {
                key.push('\u{1}');
                key.push('\u{0}');
            }
        } else if same_chars(component, &current) {
            if i == 0 {
                key.push('\u{2}');
                key.push('\u{0}');
            }
        } else if same_chars(component, &parent) {
            key.push('\u{3}');
            key.push('\u{0}');
        } else {
            key.push('\u{4}');
            push_all(&mut key, component);
            key.push('\u{0}');
        }
        assert(key@ =~= before + component_key(views, i as int));
        i = i + 1;
    }
    key
}

/// Whether a file comes before another.
pub open spec fn precedes(a: Found, b: Found, order: Order) -> bool {
    let by_path = text::lex_less(path_key(a.path), path_key(b.path));
    match order {
        Order::Path => by_path,
        Order::NewestFirst => a.modified->0 > b.modified->0 || (a.modified->0 == b.modified->0
            && by_path),
    }
}

/// Whether no file comes before one that stands in front of it.
pub open spec fn is_ordered(files: Seq<Found>, order: Order) -> bool {
    forall|i: int, j: int|
        0 <= i < j < files.len() ==> !precedes(#[trigger] files[j], #[trigger] files[i], order)
}

spec fn founds(items: Seq<Item>) -> Seq<Found> {
    items.map_values(|item: Item| item.found())
}

spec fn are_keyed(items: Seq<Item>) -> bool {
    forall|i: int| 0 <= i < items.len() ==> (#[trigger] items[i]).is_keyed()
}

/// Adds what a walk finds at or under a node.
fn collect(node: &Node, depth: Depth, is_root: bool, items: &mut Vec<Item>) -> (result: Result<
    (),
    String,
>)
    requires
        are_keyed(old(items)@),
    ensures
        are_keyed(final(items)@),
        match walk(*node, depth, is_root) {
            Walk::Files(files) => result is Ok && founds(final(items)@) == founds(old(items)@)
                + files,
            Walk::Failed(path) => result matches Err(at) && at@ == path,
        },
    decreases *node,
{
    let ghost before = founds(items@);
    match node {
        Node::File { path, modified } => {
            if has_json_extension(path.as_str()) {
                let item = Item {
                    key: make_key(path.as_str()),
                    path: path.clone(),
                    modified: *modified,
                };
                items.push(item);
            }
            proof {
                assert(walk(*node, depth, is_root) matches Walk::Files(files) && founds(items@)
                    =~= before + files);
            }
            Ok(())
        },
        Node::Directory { entries } => {
            if is_root || matches!(depth, Depth::Recursive) {
                let mut i: usize = 0;
                assert(founds(items@) =~= before + Seq::empty());
                while i < entries.len()
                    invariant
                        i <= entries@.len(),
                        are_keyed(items@),
                        node matches Node::Directory { entries: all } && all == entries,
                        is_root || depth is Recursive,
                        walk_all(entries@, i as nat, depth, false) matches Walk::Files(files)
                            && founds(items@) == before + files,
                    decreases entries@.len() - i,
                {
                    let ghost now = walk_all(entries@, i as nat, depth, false);
                    if let Err(path) = collect(&entries[i], depth, false, items) {
                        proof {
                            lemma_failed(entries@, (i + 1) as nat, entries@.len(), depth, false);
                        }
                        return Err(path);
                    }
                    proof {
                        assert(founds(items@) =~= before + (now->Files_0 + walk(
                            entries@[i as int],
                            depth,
                            false,
                        )->Files_0));
                    }
                    i = i + 1;
                }
            } else {
                assert(founds(items@) =~= before + Seq::empty());
            }
            Ok(())
        },
        Node::Unreadable { path } => if is_root || matches!(depth, Depth::Recursive) {
            Err(path.clone())
        } else {
            assert(founds(items@) =~= before + Seq::empty());
            Ok(())
        },
        Node::Other { path } => if is_root {
            Err(path.clone())
        } else {
            assert(founds(items@) =~= before + Seq::empty());
            Ok(())
        },
    }
}

/// A walk that failed stays failed.
proof fn lemma_failed(nodes: Seq<Node>, m: nat, n: nat, depth: Depth, are_roots: bool)
    requires
        m <= n <= nodes.len(),
        walk_all(nodes, m, depth, are_roots) is Failed,
    ensures
        walk_all(nodes, n, depth, are_roots) == walk_all(nodes, m, depth, are_roots),
    decreases n,
{
    if m < n {
        lemma_failed(nodes, m, (n - 1) as nat, depth, are_roots);
    }
}

/// Whether an item comes before another.
fn comes_first(a: &Item, b: &Item, order: Order) -> (first: bool)
    requires
        a.is_keyed(),
        b.is_keyed(),
        order is NewestFirst ==> a.modified is Some && b.modified is Some,
    ensures
        first == precedes(a.found(), b.found(), order),
{
    let by_path = comes_before(&a.key, &b.key);
    match order {
        Order::Path => by_path,
        Order::NewestFirst => match (a.modified, b.modified) {
            (Some(a_time), Some(b_time)) => a_time > b_time || (a_time == b_time && by_path),
            _ => by_path,
        },
    }
}

/// The order of texts is transitive.
proof fn lemma_lex_chain(a: Seq<char>, b: Seq<char>, c: Seq<char>)
    ensures
        text::lex_less(a, b) && text::lex_less(b, c) ==> text::lex_less(a, c),
{
    if text::lex_less(a, b) && text::lex_less(b, c) {
        text::lemma_lex_transitive(a, b, c);
    }
}

/// The order is transitive where files are ordered one way or the other.
proof fn lemma_precedes(a: Found, b: Found, c: Found, order: Order)
    ensures
        !(precedes(a, b, order) && precedes(b, a, order)),
        !precedes(b, a, order) && !precedes(c, b, order) ==> !precedes(c, a, order),
        precedes(a, b, order) && !precedes(c, b, order) ==> !precedes(c, a, order),
{
    let (ka, kb, kc) = (path_key(a.path), path_key(b.path), path_key(c.path));
    text::lemma_lex_total(ka, kb);
    text::lemma_lex_total(kb, kc);
    text::lemma_lex_total(ka, kc);
    lemma_lex_chain(ka, kb, kc);
    lemma_lex_chain(kc, ka, kb);
    lemma_lex_chain(kb, kc, ka);
    lemma_lex_chain(kc, kb, ka);
    lemma_lex_chain(ka, kc, kb);
    lemma_lex_chain(kb, ka, kc);
}

/// Puts an item in its place.
fn insert_item(sorted: &mut Vec<Item>, item: Item, order: Order)
    requires
        are_keyed(old(sorted)@),
        item.is_keyed(),
        order is NewestFirst ==> item.modified is Some && forall|i: int|
            0 <= i < old(sorted)@.len() ==> (#[trigger] old(sorted)@[i]).modified is Some,
        is_ordered(founds(old(sorted)@), order),
    ensures
        are_keyed(final(sorted)@),
        order is NewestFirst ==> forall|i: int|
            0 <= i < final(sorted)@.len() ==> (#[trigger] final(sorted)@[i]).modified is Some,
        is_ordered(founds(final(sorted)@), order),
        founds(final(sorted)@).to_multiset() == founds(old(sorted)@).to_multiset().insert(
            item.found(),
        ),
{
    let ghost before = sorted@;
    let ghost files = founds(sorted@);
    let ghost new = item.found();
    let mut place: usize = sorted.len();
    while place > 0 && comes_first(&item, &sorted[place - 1], order)
        invariant
            place <= sorted@.len(),
            sorted@ == before,
            files == founds(before),
            new == item.found(),
            are_keyed(sorted@),
            item.is_keyed(),
            order is NewestFirst ==> item.modified is Some && forall|i: int|
                0 <= i < sorted@.len() ==> (#[trigger] sorted@[i]).modified is Some,
            is_ordered(files, order),
            forall|j: int| place <= j < files.len() ==> precedes(new, #[trigger] files[j], order),
        decreases place,
    {
        place = place - 1;
    }
    sorted.insert(place, item);
    proof {
        let after = founds(sorted@);
        assert(after =~= files.insert(place as int, new));
        assert forall|i: int, j: int| 0 <= i < j < after.len() implies !precedes(
            #[trigger] after[j],
            #[trigger] after[i],
            order,
        ) by {
            if i < place && j == place {
                if i < place - 1 {
                    assert(!precedes(files[place - 1], files[i], order));
                    lemma_precedes(files[i], files[place - 1], new, order);
                }
            } else if i == place && j > place {
                lemma_precedes(new, files[j - 1], new, order);
            } else if i < place && j < place {
                assert(!precedes(files[j], files[i], order));
            } else if i < place {
                assert(!precedes(files[j - 1], files[i], order));
            } else {
                assert(!precedes(files[j - 1], files[i - 1], order));
            }
        }
        vstd::seq_lib::to_multiset_insert(files, place as int, new);
    }
}

/// The files that a walk of the roots finds.
pub open spec fn walk_roots(roots: Seq<Node>, depth: Depth) -> Walk {
    walk_all(roots, roots.len(), depth, true)
}

/// The place of the first file whose modification time is unknown.
pub open spec fn first_untimed(files: Seq<Found>) -> int
    decreases files.len(),
{
    if files.len() == 0 {
        0
    } else if first_untimed(files.drop_last()) < files.len() - 1 {
        first_untimed(files.drop_last())
    } else if files.last().modified is None {
        files.len() - 1
    } else {
        files.len() as int
    }
}

/// The paths of files.
pub open spec fn file_paths(files: Seq<Found>) -> Seq<Seq<char>> {
    files.map_values(|file: Found| file.path)
}

/// The texts of strings.
pub open spec fn path_views(paths: Seq<String>) -> Seq<Seq<char>> {
    paths.map_values(|path: String| path@)
}

/// Whether paths are those of the files that were found, in order.
pub open spec fn lists(paths: Seq<Seq<char>>, files: Seq<Found>, order: Order) -> bool {
    exists|sorted: Seq<Found>|
        {
            &&& is_ordered(sorted, order)
            &&& #[trigger] sorted.to_multiset() == files.to_multiset()
            &&& paths == file_paths(sorted)
        }
}

/// Collects every `.json` file at or under `roots`.
///
/// A root that names a file rather than a directory is taken directly if it has a `.json` extension,
/// which lets callers accept a mixture of files and directories.
pub fn json_files(roots: &Vec<Node>, depth: Depth, order: Order) -> (result: Result<
    Vec<String>,
    Error,
>)
    ensures
        match walk_roots(roots@, depth) {
            Walk::Failed(path) => result matches Err(Error::Unreadable { path: at }) && at@ == path,
            Walk::Files(files) => {
                let untimed = first_untimed(files);
                if order is NewestFirst && untimed < files.len() {
                    result matches Err(Error::UnknownModificationTime { path }) && path@
                        == files[untimed].path
                } else {
                    result matches Ok(paths) && lists(path_views(paths@), files, order)
                }
            },
        },
{
    let mut items: Vec<Item> = Vec::new();
    let mut i: usize = 0;
    assert(founds(items@) =~= Seq::empty());
    while i < roots.len()
        invariant
            i <= roots@.len(),
            are_keyed(items@),
            walk_all(roots@, i as nat, depth, true) == Walk::Files(founds(items@)),
        decreases roots@.len() - i,
    {
        if let Err(path) = collect(&roots[i], depth, true, &mut items) {
            proof {
                lemma_failed(roots@, (i + 1) as nat, roots@.len(), depth, true);
            }
            return Err(Error::Unreadable { path });
        }
        i = i + 1;
    }
    let ghost files = founds(items@);
    let ghost all = items@;
    if matches!(order, Order::NewestFirst) {
        let mut k: usize = 0;
        while k < items.len()
            invariant
                k <= items@.len(),
                items@ == all,
                files == founds(items@),
                order is NewestFirst,
                walk_roots(roots@, depth) == Walk::Files(files),
                first_untimed(files.take(k as int)) == k,
                forall|j: int| 0 <= j < k ==> (#[trigger] items@[j]).modified is Some,
            decreases items@.len() - k,
        {
            proof {
                assert(files.take(k + 1).drop_last() =~= files.take(k as int));
                assert(files[k as int] == items@[k as int].found());
            }
            if items[k].modified.is_none() {
                proof {
                    lemma_untimed(files, (k + 1) as nat, k as int);
                }
                return Err(Error::UnknownModificationTime { path: items[k].path.clone() });
            }
            k = k + 1;
        }
        assert(files.take(k as int) =~= files);
    }
    let mut sorted: Vec<Item> = Vec::new();
    proof {
        assert(founds(sorted@) =~= Seq::empty());
        assert(files.take(0) =~= Seq::empty());
    }
    for item in iter: items
        invariant
            iter.seq() == all,
            files == founds(all),
            are_keyed(all),
            are_keyed(sorted@),
            order is NewestFirst ==> forall|j: int|
                0 <= j < all.len() ==> (#[trigger] all[j]).modified is Some,
            order is NewestFirst ==> forall|j: int|
                0 <= j < sorted@.len() ==> (#[trigger] sorted@[j]).modified is Some,
            is_ordered(founds(sorted@), order),
            founds(sorted@).to_multiset() == files.take(iter.index() as int).to_multiset(),
    {
        proof {
            let k = iter.index() as int;
            assert(item == all[k]);
            assert(all[k].is_keyed());
            assert(files.take(k + 1) =~= files.take(k).push(files[k]));
            files.take(k).to_multiset_ensures();
        }
        insert_item(&mut sorted, item, order);
    }
    let ghost result = founds(sorted@);
    proof {
        assert(files.take(files.len() as int) =~= files);
    }
    let mut paths: Vec<String> = Vec::new();
    assert(path_views(paths@) =~= file_paths(result).take(0));
    let ghost ordered = sorted@;
    for item in iter: sorted
        invariant
            iter.seq() == ordered,
            result == founds(ordered),
            path_views(paths@) == file_paths(result).take(iter.index() as int),
    {
        let ghost before = paths@;
        paths.push(item.path);
        proof {
            let k = iter.index() as int;
            assert(result[k] == ordered[k].found());
            assert(path_views(paths@) =~= path_views(before).push(file_paths(result)[k]));
            assert(file_paths(result).take(k + 1) =~= file_paths(result).take(k).push(
                file_paths(result)[k],
            ));
        }
    }
    proof {
        assert(file_paths(result).take(result.len() as int) =~= file_paths(result));
        assert(lists(path_views(paths@), files, order));
    }
    Ok(paths)
}

/// The first file without a time stays the first.
proof fn lemma_untimed(files: Seq<Found>, n: nat, place: int)
    requires
        n <= files.len(),
        first_untimed(files.take(n as int)) == place,
        0 <= place < n,
    ensures
        first_untimed(files) == place,
    decreases files.len(),
{
    if n == files.len() {
        assert(files.take(n as int) =~= files);
    } else {
        assert(files.drop_last().take(n as int) =~= files.take(n as int));
        lemma_untimed(files.drop_last(), n, place);
    }
}

/// The paths that a walk lists are those of the files that it finds, each as often.
pub proof fn law_walk_lists_each_file(paths: Seq<Seq<char>>, files: Seq<Found>, order: Order)
    requires
        lists(paths, files, order),
    ensures
        paths.to_multiset() == file_paths(files).to_multiset(),
{
    let sorted = choose|sorted: Seq<Found>|
        {
            &&& is_ordered(sorted, order)
            &&& #[trigger] sorted.to_multiset() == files.to_multiset()
            &&& paths == file_paths(sorted)
        };
    lemma_same_paths(sorted, files);
}

/// Two lists of the same files hold the same paths.
proof fn lemma_same_paths(a: Seq<Found>, b: Seq<Found>)
    requires
        a.to_multiset() == b.to_multiset(),
    ensures
        file_paths(a).to_multiset() == file_paths(b).to_multiset(),
    decreases a.len(),
{
    broadcast use vstd::seq_lib::group_to_multiset_ensures;

    assert(a.len() == a.to_multiset().len() && b.len() == b.to_multiset().len());
    if a.len() == 0 {
        assert(file_paths(a) =~= file_paths(b));
    } else {
        let last = a.last();
        assert(a.to_multiset().count(last) > 0) by {
            assert(a.contains(last));
        }
        assert(b.contains(last));
        let k = choose|k: int| 0 <= k < b.len() && b[k] == last;
        assert(a.drop_last() =~= a.remove(a.len() - 1));
        lemma_same_paths(a.drop_last(), b.remove(k));
        assert(file_paths(a).remove(a.len() - 1) =~= file_paths(a.drop_last()));
        assert(file_paths(b).remove(k) =~= file_paths(b.remove(k)));
        let (pa, pb) = (file_paths(a), file_paths(b));
        assert(pa.remove(a.len() - 1).to_multiset() == pa.to_multiset().remove(last.path));
        assert(pb.remove(k).to_multiset() == pb.to_multiset().remove(last.path));
        assert(pa.contains(last.path)) by {
            assert(pa[a.len() - 1] == last.path);
        }
        assert(pb.contains(last.path)) by {
            assert(pb[k] == last.path);
        }
        assert(pa.to_multiset() =~= pa.to_multiset().remove(last.path).insert(last.path));
        assert(pb.to_multiset() =~= pb.to_multiset().remove(last.path).insert(last.path));
    }
}

/// A file is a JSON file exactly if its name ends in `.json` and is more than that.
pub proof fn law_which_files_are_json(path: Seq<char>, name: Seq<char>)
    requires
        !name.contains('/'),
        name.len() > 0,
        name != "."@,
        name != ".."@,
    ensures
        is_json(path + seq!['/'] + name) <==> name.len() > 5 && name.skip(name.len() - 5) == seq![
            '.',
            'j',
            's',
            'o',
            'n',
        ],
        is_json(name) == is_json(path + seq!['/'] + name),
{
    reveal_strlit(".json");
    assert(".json"@ =~= seq!['.', 'j', 's', 'o', 'n']);
    legacy::law_file_name_is_the_last_component(path, name);
}

/// A CDX file is a JSON file directly in a directory that is called `data`, wherever that lies.
pub proof fn law_which_files_are_cdx(path: Seq<char>, directory: Seq<char>, name: Seq<char>)
    requires
        !name.contains('/'),
        name.len() > 0,
        name != "."@,
        name != ".."@,
        !directory.contains('/'),
        directory.len() > 0,
        directory != "."@,
    ensures
        is_data_json(path + seq!['/'] + directory + seq!['/'] + name) <==> is_json(name) && directory
            == seq!['d', 'a', 't', 'a'],
        !is_data_json(name),
{
    reveal_strlit("data");
    assert("data"@ =~= seq!['d', 'a', 't', 'a']);
    let front = path + seq!['/'] + directory;
    law_which_files_are_json(front, name);
    text::law_last_part(path, directory, '/');
    text::law_last_part(front, name, '/');
    let parts = text::split(path, '/');
    assert(parts.push(directory).drop_last() =~= parts);
    assert(parts.push(directory).push(name).drop_last() =~= parts.push(directory));
    let found = named(text::split(front + seq!['/'] + name, '/'));
    let two = parts.push(directory);
    assert(named(two) == named(parts).push(directory));
    assert(two.push(name).last() == name);
    assert(named(two.push(name)) == named(two).push(name));
    assert(found == named(parts).push(directory).push(name));
    assert(seq![name].drop_last() =~= Seq::empty());
    assert(named(seq![name].drop_last()) =~= Seq::empty());
    assert(named(seq![name]).len() == 1);
}

/// A walk finds the JSON files of a directory one after the other, and those of the directories inside it only
/// if it is recursive. What cannot be read ends it, unless it would not have been walked into.
pub proof fn law_walks_go_by_depth(entries: Vec<Node>, path: String, modified: Option<i128>, depth: Depth)
    ensures
        walk(Node::Directory { entries }, depth, true) == walk_all(entries@, entries@.len(), depth, false),
        depth is Recursive ==> walk(Node::Directory { entries }, depth, false) == walk_all(
            entries@,
            entries@.len(),
            depth,
            false,
        ),
        depth is Shallow ==> walk(Node::Directory { entries }, depth, false) == Walk::Files(
            Seq::empty(),
        ),
        walk(Node::Unreadable { path }, depth, true) == Walk::Failed(path@),
        depth is Recursive ==> walk(Node::Unreadable { path }, depth, false) == Walk::Failed(path@),
        depth is Shallow ==> walk(Node::Unreadable { path }, depth, false) == Walk::Files(Seq::empty()),
        walk(Node::Other { path }, depth, true) == Walk::Failed(path@),
        walk(Node::Other { path }, depth, false) == Walk::Files(Seq::empty()),
        forall|is_root: bool| #[trigger]
            walk(Node::File { path, modified }, depth, is_root) == Walk::Files(
                if is_json(path@) {
                    seq![
                        Found {
                            path: path@,
                            modified: match modified {
                                Some(modified) => Some(modified as int),
                                None => None,
                            },
                        },
                    ]
                } else {
                    Seq::empty()
                },
            ),
{
}

/// A walk of several nodes finds what a walk of each finds, in their order, or ends at the first that fails.
pub proof fn law_walks_follow_each_other(nodes: Seq<Node>, n: nat, depth: Depth, are_roots: bool)
    requires
        n < nodes.len(),
    ensures
        walk_all(nodes, 0, depth, are_roots) == Walk::Files(Seq::empty()),
        match (walk_all(nodes, n, depth, are_roots), walk(nodes[n as int], depth, are_roots)) {
            (Walk::Failed(path), _) => walk_all(nodes, n + 1, depth, are_roots) == Walk::Failed(path),
            (Walk::Files(_), Walk::Failed(path)) => walk_all(nodes, n + 1, depth, are_roots)
                == Walk::Failed(path),
            (Walk::Files(files), Walk::Files(more)) => walk_all(nodes, n + 1, depth, are_roots)
                == Walk::Files(files + more),
        },
{
}

/// Files come in the order of their paths, or the newest first and those of the same time in the order of their
/// paths.
pub proof fn law_files_are_ordered(a: Found, b: Found)
    requires
        a.modified is Some,
        b.modified is Some,
    ensures
        a.modified.unwrap() > b.modified.unwrap() ==> precedes(a, b, Order::NewestFirst),
        a.modified.unwrap() < b.modified.unwrap() ==> !precedes(a, b, Order::NewestFirst),
        a.modified.unwrap() == b.modified.unwrap() ==> precedes(a, b, Order::NewestFirst) == precedes(
            a,
            b,
            Order::Path,
        ),
        precedes(a, b, Order::Path) <==> text::lex_less(path_key(a.path), path_key(b.path)),
{
}

/// Paths are ordered component by component: a path comes before everything in it, and what is in the same
/// directory comes in the order of its names.
pub proof fn law_paths_are_ordered_by_component(path: Seq<char>, name: Seq<char>)
    requires
        path.len() > 0,
        !name.contains('/'),
        name.len() > 0,
        name != "."@,
        name != ".."@,
    ensures
        path_key(path + seq!['/'] + name) == path_key(path) + seq!['\u{4}'] + name + seq!['\u{0}'],
        text::lex_less(path_key(path), path_key(path + seq!['/'] + name)),
{
    text::law_last_part(path, name, '/');
    let parts = text::split(path, '/');
    text::law_split_joins_back(path, '/');
    let more = parts.push(name);
    assert(parts.len() == 1 ==> parts[0].len() > 0);
    lemma_same_components(parts, more, parts.len());
    assert(path_key(path + seq!['/'] + name) =~= path_key(path) + seq!['\u{4}'] + name + seq![
        '\u{0}',
    ]);
    let key = path_key(path);
    let tail = seq!['\u{4}'] + name + seq!['\u{0}'];
    assert(key + Seq::empty() =~= key);
    assert(key + tail =~= path_key(path + seq!['/'] + name));
    text::law_texts_are_ordered(key, Seq::empty(), tail);
}

/// The key of the first components does not depend on those behind them.
proof fn lemma_same_components(a: Seq<Seq<char>>, b: Seq<Seq<char>>, n: nat)
    requires
        n <= a.len() < b.len(),
        a.len() == 1 ==> a[0].len() > 0,
        forall|i: int| 0 <= i < a.len() ==> #[trigger] b[i] == a[i],
    ensures
        components_key(a, n) == components_key(b, n),
    decreases n,
{
    if n > 0 {
        lemma_same_components(a, b, (n - 1) as nat);
        assert(b[n - 1] == a[n - 1]);
    }
}

/// The first file without a modification time is the one that is reported.
pub proof fn law_first_untimed_file_is_reported(files: Seq<Found>)
    ensures
        0 <= first_untimed(files) <= files.len(),
        first_untimed(files) < files.len() ==> files[first_untimed(files)].modified is None,
        forall|i: int| 0 <= i < first_untimed(files) ==> (#[trigger] files[i]).modified is Some,
    decreases files.len(),
{
    if files.len() > 0 {
        let front = files.drop_last();
        law_first_untimed_file_is_reported(front);
        assert(forall|i: int| 0 <= i < front.len() ==> #[trigger] files[i] == front[i]);
    }
}

/// Listed paths are in the order of their components.
pub proof fn law_listed_paths_are_sorted(paths: Seq<Seq<char>>, files: Seq<Found>, i: int, j: int)
    requires
        lists(paths, files, Order::Path),
        0 <= i < j < paths.len(),
    ensures
        !text::lex_less(path_key(paths[j]), path_key(paths[i])),
{
    let sorted = choose|sorted: Seq<Found>|
        {
            &&& is_ordered(sorted, Order::Path)
            &&& #[trigger] sorted.to_multiset() == files.to_multiset()
            &&& paths == file_paths(sorted)
        };
    assert(paths[i] == sorted[i].path && paths[j] == sorted[j].path);
    assert(!precedes(sorted[j], sorted[i], Order::Path));
}

} // verus!

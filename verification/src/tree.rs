//! The file tree the shell renders: built from path component lists,
//! sorted folders-first, searched case-insensitively and flattened for
//! display.

use vstd::prelude::*;

verus! {

/// A tree node ready for rendering: sorted children and a cached file
/// count.
pub struct CachedTreeNode {
    /// The last path component.
    pub name: String,
    /// The full path, components joined by `/`.
    pub full_path: String,
    /// Child nodes, folders first, each group in ascending name order.
    pub children: Vec<CachedTreeNode>,
    /// Whether this node is a file.
    pub is_file: bool,
    /// The number of files in this subtree, saturated at `usize::MAX`.
    pub file_count: usize,
}

/// A row of the flattened tree, for virtual scrolling.
pub struct FlatTreeItem {
    /// The node's name.
    pub name: String,
    /// The node's full path.
    pub full_path: String,
    /// Whether the row is a file.
    pub is_file: bool,
    /// Indentation depth.
    pub depth: usize,
    /// For folders: the subtree's file count.
    pub child_count: usize,
    /// Whether the node has children.
    pub has_children: bool,
}

/// A tree node while the tree is being built; children are unsorted and
/// looked up by name.
pub struct TempTreeNode {
    /// The last path component.
    pub name: String,
    /// The full path, components joined by `/`.
    pub full_path: String,
    /// Child nodes, in insertion order, with pairwise distinct names.
    pub children: Vec<TempTreeNode>,
    /// Whether this node is a file.
    pub is_file: bool,
}

/// Lexicographic order on character sequences, by code point.
pub open spec fn chars_le(a: Seq<char>, b: Seq<char>) -> bool
    decreases a.len(),
{
    if a.len() == 0 {
        true
    } else if b.len() == 0 {
        false
    } else if a[0] < b[0] {
        true
    } else if a[0] > b[0] {
        false
    } else {
        chars_le(a.skip(1), b.skip(1))
    }
}

/// `chars_le` is total.
pub proof fn lemma_chars_le_total(a: Seq<char>, b: Seq<char>)
    ensures
        chars_le(a, b) || chars_le(b, a),
    decreases a.len(),
{
    if a.len() > 0 && b.len() > 0 && a[0] == b[0] {
        lemma_chars_le_total(a.skip(1), b.skip(1));
    }
}

/// `chars_le` is transitive.
pub proof fn lemma_chars_le_trans(a: Seq<char>, b: Seq<char>, c: Seq<char>)
    requires
        chars_le(a, b),
        chars_le(b, c),
    ensures
        chars_le(a, c),
    decreases a.len(),
{
    if a.len() > 0 && b.len() > 0 && c.len() > 0 && a[0] == b[0] && b[0] == c[0] {
        lemma_chars_le_trans(a.skip(1), b.skip(1), c.skip(1));
    }
}

/// Decides `chars_le` on two strings.
pub fn chars_le_exec(a: &str, b: &str) -> (r: bool)
    ensures
        r == chars_le(a@, b@),
{
    let alen = a.unicode_len();
    let blen = b.unicode_len();
    let mut i: usize = 0;
    assert(a@.skip(0) =~= a@ && b@.skip(0) =~= b@);
    loop
        invariant
            0 <= i <= alen,
            i <= blen,
            alen == a@.len(),
            blen == b@.len(),
            chars_le(a@, b@) == chars_le(a@.skip(i as int), b@.skip(i as int)),
        decreases alen - i,
    {
        if i >= alen {
            assert(a@.skip(i as int).len() == 0);
            return true;
        }
        if i >= blen {
            assert(b@.skip(i as int).len() == 0 && a@.skip(i as int).len() > 0);
            return false;
        }
        let ca = a.get_char(i);
        let cb = b.get_char(i);
        assert(a@.skip(i as int)[0] == ca && b@.skip(i as int)[0] == cb);
        if ca < cb {
            return true;
        }
        if ca > cb {
            return false;
        }
        proof {
            assert(a@.skip(i as int).skip(1) =~= a@.skip(i + 1));
            assert(b@.skip(i as int).skip(1) =~= b@.skip(i + 1));
        }
        i = i + 1;
    }
}

/// True when `needle` occurs as a contiguous run inside `hay`.
pub open spec fn is_substring(needle: Seq<char>, hay: Seq<char>) -> bool {
    exists|i: int|
        0 <= i <= hay.len() - needle.len() && #[trigger] hay.subrange(i, i + needle.len() as int)
            == needle
}

/// Decides whether `needle` occurs inside `hay`.
pub fn contains_chars(hay: &str, needle: &str) -> (r: bool)
    ensures
        r == is_substring(needle@, hay@),
{
    let nlen = needle.unicode_len();
    let hlen = hay.unicode_len();
    if nlen > hlen {
        return false;
    }
    let mut i: usize = 0;
    while i <= hlen - nlen
        invariant
            0 <= i <= hlen - nlen + 1,
            nlen <= hlen,
            nlen == needle@.len(),
            hlen == hay@.len(),
            forall|k: int|
                0 <= k < i ==> #[trigger] hay@.subrange(k, k + needle@.len() as int) != needle@,
        decreases hlen - nlen - i + 1,
    {
        let mut j: usize = 0;
        let mut all = true;
        while j < nlen
            invariant
                0 <= j <= nlen,
                nlen == needle@.len(),
                hlen == hay@.len(),
                i + nlen <= hlen,
                all == forall|k: int| 0 <= k < j ==> hay@[i + k] == #[trigger] needle@[k],
            decreases nlen - j,
        {
            let hc = hay.get_char(i + j);
            let nc = needle.get_char(j);
            if hc != nc {
                assert(hay@[i + j as int] != needle@[j as int]);
                all = false;
                proof {
                    assert(!(forall|k: int|
                        0 <= k < j + 1 ==> hay@[i + k] == #[trigger] needle@[k])) by {
                        assert(hay@[i + j as int] != needle@[j as int]);
                    }
                }
                j = nlen;
            } else {
                proof {
                    if all {
                        assert forall|k: int| 0 <= k < j + 1 implies hay@[i + k] == needle@[k] by {
                            if k == j as int {
                                assert(hay@[i + k] == needle@[k]);
                            }
                        }
                    }
                }
                j = j + 1;
            }
        }
        if all {
            proof {
                assert(hay@.subrange(i as int, i + needle@.len() as int) =~= needle@);
            }
            return true;
        }
        proof {
            assert(hay@.subrange(i as int, i + needle@.len() as int) != needle@) by {
                if hay@.subrange(i as int, i + needle@.len() as int) == needle@ {
                    let k = choose|k: int|
                        0 <= k < needle@.len() && hay@[i + k] != needle@[k];
                    assert(hay@.subrange(i as int, i + needle@.len() as int)[k] == hay@[i + k]);
                }
            }
        }
        i = i + 1;
    }
    proof {
        assert(!is_substring(needle@, hay@)) by {
            if is_substring(needle@, hay@) {
                let k = choose|k: int|
                    0 <= k <= hay@.len() - needle@.len() && #[trigger] hay@.subrange(
                        k,
                        k + needle@.len() as int,
                    ) == needle@;
            }
        }
    }
    false
}

/// True when the path set `mods` holds `full_path`.
pub open spec fn spec_path_in(mods: Seq<Seq<char>>, p: Seq<char>) -> bool {
    mods.contains(p)
}

/// True when `full_path` is one of the modified paths.
pub fn is_file_modified(full_path: &str, modified_files: &Vec<String>) -> (r: bool)
    ensures
        r == spec_path_in(Seq::new(modified_files@.len(), |i: int| modified_files@[i]@), full_path@),
{
    let ghost s = Seq::new(modified_files@.len(), |i: int| modified_files@[i]@);
    let n = modified_files.len();
    let mut i: usize = 0;
    while i < n
        invariant
            0 <= i <= n,
            n == modified_files@.len(),
            s == Seq::new(modified_files@.len(), |k: int| modified_files@[k]@),
            forall|k: int| 0 <= k < i ==> s[k] != full_path@,
        decreases n - i,
    {
        if str_eq(modified_files[i].as_str(), full_path) {
            assert(s[i as int] == full_path@);
            return true;
        }
        i = i + 1;
    }
    proof {
        if s.contains(full_path@) {
            let k = choose|k: int| 0 <= k < s.len() && s[k] == full_path@;
        }
    }
    false
}

/// True when two strings hold the same characters.
pub fn str_eq(a: &str, b: &str) -> (r: bool)
    ensures
        r == (a@ == b@),
{
    let alen = a.unicode_len();
    let blen = b.unicode_len();
    if alen != blen {
        return false;
    }
    let mut i: usize = 0;
    while i < alen
        invariant
            0 <= i <= alen,
            alen == a@.len() == b@.len(),
            forall|k: int| 0 <= k < i ==> a@[k] == b@[k],
        decreases alen - i,
    {
        if a.get_char(i) != b.get_char(i) {
            return false;
        }
        i = i + 1;
    }
    assert(a@ =~= b@);
    true
}

/// What the search lowercases to. Lowercasing is done by the standard
/// library; this name stands for its result, which depends on the
/// characters alone.
pub uninterp spec fn lower_of(s: Seq<char>) -> Seq<char>;

/// Relies on `str::to_lowercase`: the result depends on the characters
/// alone.
#[verifier::external_body]
fn to_lowercase_str(s: &str) -> (r: String)
    ensures
        r@ == lower_of(s@),
{
    s.to_lowercase()
}

/// True when the node's lowercased name or full path contains the
/// lowercased query; an empty query matches everything.
pub open spec fn spec_matches_search(node: CachedTreeNode, q: Seq<char>) -> bool {
    q.len() == 0 || is_substring(lower_of(q), lower_of(node.name@)) || is_substring(
        lower_of(q),
        lower_of(node.full_path@),
    )
}

/// True when the node itself matches the search query.
pub fn matches_search_cached(node: &CachedTreeNode, search_query: &str) -> (r: bool)
    ensures
        r == spec_matches_search(*node, search_query@),
{
    if search_query.unicode_len() == 0 {
        return true;
    }
    let query_lower = to_lowercase_str(search_query);
    let name_lower = to_lowercase_str(node.name.as_str());
    let path_lower = to_lowercase_str(node.full_path.as_str());
    contains_chars(name_lower.as_str(), query_lower.as_str()) || contains_chars(
        path_lower.as_str(),
        query_lower.as_str(),
    )
}

/// True when some child from position `j` on matches the query, or is a
/// folder whose subtree matches.
pub open spec fn spec_has_matching_from(node: CachedTreeNode, q: Seq<char>, j: int) -> bool
    decreases node, node.children@.len() - j, 1int,
{
    if j < 0 || j >= node.children@.len() {
        false
    } else {
        let child = node.children@[j];
        spec_matches_search(child, q) || (!child.is_file && spec_has_matching_children(child, q))
            || spec_has_matching_from(node, q, j + 1)
    }
}

/// True when some node below `node` matches the query; an empty query
/// matches everything.
pub open spec fn spec_has_matching_children(node: CachedTreeNode, q: Seq<char>) -> bool
    decreases node, node.children@.len(), 2int,
{
    q.len() == 0 || spec_has_matching_from(node, q, 0)
}

/// True when some node below `node` matches the search query.
pub fn has_matching_children_cached(node: &CachedTreeNode, search_query: &str) -> (r: bool)
    ensures
        r == spec_has_matching_children(*node, search_query@),
    decreases *node,
{
    if search_query.unicode_len() == 0 {
        return true;
    }
    let n = node.children.len();
    let mut j: usize = 0;
    while j < n
        invariant
            0 <= j <= n,
            n == node.children@.len(),
            search_query@.len() > 0,
            spec_has_matching_children(*node, search_query@) == spec_has_matching_from(
                *node,
                search_query@,
                j as int,
            ),
        decreases n - j,
    {
        let child = &node.children[j];
        if matches_search_cached(child, search_query) {
            return true;
        }
        if !child.is_file && has_matching_children_cached(child, search_query) {
            return true;
        }
        j = j + 1;
    }
    false
}

/// True when the file at `node` is modified, or some file below it is.
pub open spec fn spec_has_modified(node: CachedTreeNode, mods: Seq<Seq<char>>) -> bool
    decreases node, node.children@.len(), 2int,
{
    if node.is_file {
        mods.contains(node.full_path@)
    } else {
        spec_has_modified_from(node, mods, 0)
    }
}

/// True when some child from position `j` on holds a modified file.
pub open spec fn spec_has_modified_from(node: CachedTreeNode, mods: Seq<Seq<char>>, j: int) -> bool
    decreases node, node.children@.len() - j, 1int,
{
    if j < 0 || j >= node.children@.len() {
        false
    } else {
        spec_has_modified(node.children@[j], mods) || spec_has_modified_from(node, mods, j + 1)
    }
}

/// The folder paths the walk of `node` records: each child's folders in
/// order, then `node`'s own path when its subtree holds a modified file
/// and its path is nonempty.
pub open spec fn spec_folders_with_modified(node: CachedTreeNode, mods: Seq<Seq<char>>) -> Seq<
    Seq<char>,
>
    decreases node, node.children@.len(), 2int,
{
    if node.is_file {
        seq![]
    } else {
        spec_folders_from(node, mods, 0) + (if spec_has_modified(node, mods)
            && node.full_path@.len() > 0 {
            seq![node.full_path@]
        } else {
            seq![]
        })
    }
}

/// The folder paths the children from position `j` on record.
pub open spec fn spec_folders_from(node: CachedTreeNode, mods: Seq<Seq<char>>, j: int) -> Seq<
    Seq<char>,
>
    decreases node, node.children@.len() - j, 1int,
{
    if j < 0 || j >= node.children@.len() {
        seq![]
    } else {
        spec_folders_with_modified(node.children@[j], mods) + spec_folders_from(node, mods, j + 1)
    }
}

/// Walks the subtree: returns whether it holds a modified file, and
/// appends the full path of every folder below (and including) `node`
/// whose subtree holds one, children first, skipping folders with an
/// empty path.
pub fn compute_folders_with_modified_recursive(
    node: &CachedTreeNode,
    modified_files: &Vec<String>,
    result: &mut Vec<String>,
) -> (r: bool)
    ensures
        r == spec_has_modified(
            *node,
            Seq::new(modified_files@.len(), |i: int| modified_files@[i]@),
        ),
        Seq::new(final(result)@.len(), |k: int| final(result)@[k]@) == Seq::new(
            old(result)@.len(),
            |k: int| old(result)@[k]@,
        ) + spec_folders_with_modified(
            *node,
            Seq::new(modified_files@.len(), |i: int| modified_files@[i]@),
        ),
    decreases *node,
{
    let ghost mods = Seq::new(modified_files@.len(), |i: int| modified_files@[i]@);
    let ghost base = Seq::new(result@.len(), |k: int| result@[k]@);
    if node.is_file {
        proof {
            assert(Seq::new(result@.len(), |k: int| result@[k]@) =~= base
                + spec_folders_with_modified(*node, mods));
        }
        return is_file_modified(node.full_path.as_str(), modified_files);
    }
    let n = node.children.len();
    let mut has_modified = false;
    let mut j: usize = 0;
    proof {
        assert(Seq::new(result@.len(), |k: int| result@[k]@) + spec_folders_from(
            *node,
            mods,
            0,
        ) =~= base + spec_folders_from(*node, mods, 0));
    }
    while j < n
        invariant
            0 <= j <= n,
            n == node.children@.len(),
            !node.is_file,
            mods == Seq::new(modified_files@.len(), |i: int| modified_files@[i]@),
            has_modified || spec_has_modified(*node, mods) == spec_has_modified_from(
                *node,
                mods,
                j as int,
            ),
            has_modified ==> spec_has_modified(*node, mods),
            Seq::new(result@.len(), |k: int| result@[k]@) + spec_folders_from(
                *node,
                mods,
                j as int,
            ) == base + spec_folders_from(*node, mods, 0),
        decreases n - j,
    {
        let child = &node.children[j];
        let ghost pre = Seq::new(result@.len(), |k: int| result@[k]@);
        if compute_folders_with_modified_recursive(child, modified_files, result) {
            has_modified = true;
        }
        proof {
            assert(Seq::new(result@.len(), |k: int| result@[k]@) + spec_folders_from(
                *node,
                mods,
                j + 1,
            ) =~= base + spec_folders_from(*node, mods, 0)) by {
                assert(Seq::new(result@.len(), |k: int| result@[k]@) =~= pre
                    + spec_folders_with_modified(node.children@[j as int], mods));
            }
        }
        j = j + 1;
    }
    proof {
        assert(spec_folders_from(*node, mods, n as int).len() == 0);
    }
    let ghost before_own = Seq::new(result@.len(), |k: int| result@[k]@);
    if has_modified && node.full_path.as_str().unicode_len() > 0 {
        result.push(node.full_path.clone());
        proof {
            assert(Seq::new(result@.len(), |k: int| result@[k]@) =~= before_own + seq![
                node.full_path@,
            ]);
        }
    }
    proof {
        assert(Seq::new(result@.len(), |k: int| result@[k]@) =~= base
            + spec_folders_with_modified(*node, mods));
    }
    has_modified
}

/// Collects the full paths of all folders whose subtree holds a modified
/// file, children first.
pub fn compute_folders_with_modified(tree: &CachedTreeNode, modified_files: &Vec<String>) -> (r:
    Vec<String>)
    ensures
        Seq::new(r@.len(), |k: int| r@[k]@) == spec_folders_with_modified(
            *tree,
            Seq::new(modified_files@.len(), |i: int| modified_files@[i]@),
        ),
{
    let mut result: Vec<String> = Vec::new();
    compute_folders_with_modified_recursive(tree, modified_files, &mut result);
    proof {
        assert(Seq::new(result@.len(), |k: int| result@[k]@) =~= Seq::<Seq<char>>::empty()
            + spec_folders_with_modified(
            *tree,
            Seq::new(modified_files@.len(), |i: int| modified_files@[i]@),
        ));
    }
    result
}

/// The mathematical content of one flattened row.
pub ghost struct FlatTreeItemModel {
    /// The node's name.
    pub name: Seq<char>,
    /// The node's full path.
    pub full_path: Seq<char>,
    /// Whether the row is a file.
    pub is_file: bool,
    /// Indentation depth.
    pub depth: int,
    /// For folders: the subtree's file count.
    pub child_count: int,
    /// Whether the node has children.
    pub has_children: bool,
}

impl View for FlatTreeItem {
    type V = FlatTreeItemModel;

    open spec fn view(&self) -> FlatTreeItemModel {
        FlatTreeItemModel {
            name: self.name@,
            full_path: self.full_path@,
            is_file: self.is_file,
            depth: self.depth as int,
            child_count: self.child_count as int,
            has_children: self.has_children,
        }
    }
}

/// The models of the flattened rows, in order.
pub open spec fn flat_views(fs: Seq<FlatTreeItem>) -> Seq<FlatTreeItemModel> {
    Seq::new(fs.len(), |i: int| fs[i]@)
}

/// The row a node contributes at the given depth.
pub open spec fn spec_flat_item(node: CachedTreeNode, depth: int) -> FlatTreeItemModel {
    FlatTreeItemModel {
        name: node.name@,
        full_path: node.full_path@,
        is_file: node.is_file,
        depth,
        child_count: node.file_count as int,
        has_children: node.children@.len() > 0,
    }
}

/// The rows a node contributes: nothing when neither it nor its subtree
/// matches the search; otherwise its own row, followed by its children's
/// rows when it is an expanded folder (or the search forces it open).
pub open spec fn spec_flat_node(
    node: CachedTreeNode,
    depth: int,
    expanded: Seq<Seq<char>>,
    q: Seq<char>,
) -> Seq<FlatTreeItemModel>
    decreases node, node.children@.len(), 2int,
{
    if !spec_matches_search(node, q) && !spec_has_matching_children(node, q) {
        seq![]
    } else {
        seq![spec_flat_item(node, depth)] + (if !node.is_file && (expanded.contains(node.full_path@)
            || (q.len() > 0 && spec_has_matching_children(node, q))) {
            spec_flat_from(node, next_depth(depth), expanded, q, 0)
        } else {
            seq![]
        })
    }
}

/// The depth of a child row, one more than its parent's, saturated at
/// the machine's limit.
pub open spec fn next_depth(depth: int) -> int {
    if depth + 1 <= usize::MAX {
        depth + 1
    } else {
        depth
    }
}

/// The rows of the children from position `j` on, at child depth `depth`.
pub open spec fn spec_flat_from(
    node: CachedTreeNode,
    depth: int,
    expanded: Seq<Seq<char>>,
    q: Seq<char>,
    j: int,
) -> Seq<FlatTreeItemModel>
    decreases node, node.children@.len() - j, 1int,
{
    if j < 0 || j >= node.children@.len() {
        seq![]
    } else {
        spec_flat_node(node.children@[j], depth, expanded, q) + spec_flat_from(
            node,
            depth,
            expanded,
            q,
            j + 1,
        )
    }
}

/// True when `p` is one of the expanded folder paths.
fn path_list_contains(paths: &Vec<String>, p: &str) -> (r: bool)
    ensures
        r == Seq::new(paths@.len(), |i: int| paths@[i]@).contains(p@),
{
    let ghost s = Seq::new(paths@.len(), |i: int| paths@[i]@);
    let n = paths.len();
    let mut i: usize = 0;
    while i < n
        invariant
            0 <= i <= n,
            n == paths@.len(),
            s == Seq::new(paths@.len(), |k: int| paths@[k]@),
            forall|k: int| 0 <= k < i ==> s[k] != p@,
        decreases n - i,
    {
        if str_eq(paths[i].as_str(), p) {
            assert(s[i as int] == p@);
            return true;
        }
        i = i + 1;
    }
    proof {
        if s.contains(p@) {
            let k = choose|k: int| 0 <= k < s.len() && s[k] == p@;
        }
    }
    false
}

/// Appends the visible rows of the subtree at `node` to `items`: skipped
/// entirely when nothing in it matches the search, otherwise its own row
/// and, when it is an expanded folder (or the search forces it open), its
/// children's rows.
pub fn build_flat_list_recursive(
    node: &CachedTreeNode,
    depth: usize,
    expanded_folders: &Vec<String>,
    search_query: &str,
    items: &mut Vec<FlatTreeItem>,
)
    ensures
        flat_views(final(items)@) == flat_views(old(items)@) + spec_flat_node(
            *node,
            depth as int,
            Seq::new(expanded_folders@.len(), |i: int| expanded_folders@[i]@),
            search_query@,
        ),
    decreases *node,
{
    let ghost expanded = Seq::new(expanded_folders@.len(), |i: int| expanded_folders@[i]@);
    let matches = matches_search_cached(node, search_query);
    let has_matching = has_matching_children_cached(node, search_query);
    if !matches && !has_matching {
        proof {
            assert(flat_views(items@) =~= flat_views(items@) + spec_flat_node(
                *node,
                depth as int,
                expanded,
                search_query@,
            ));
        }
        return ;
    }
    let item = FlatTreeItem {
        name: node.name.clone(),
        full_path: node.full_path.clone(),
        is_file: node.is_file,
        depth,
        child_count: node.file_count,
        has_children: node.children.len() > 0,
    };
    proof {
        assert(item@ == spec_flat_item(*node, depth as int));
    }
    let ghost base = flat_views(old(items)@);
    items.push(item);
    proof {
        assert(flat_views(items@) =~= base + seq![spec_flat_item(*node, depth as int)]);
    }
    if !node.is_file {
        let is_expanded = path_list_contains(expanded_folders, node.full_path.as_str());
        let force_expand = search_query.unicode_len() > 0 && has_matching;
        if is_expanded || force_expand {
            let d2 = if depth < usize::MAX {
                depth + 1
            } else {
                depth
            };
            proof {
                assert(d2 as int == next_depth(depth as int));
            }
            let n = node.children.len();
            let mut j: usize = 0;
            while j < n
                invariant
                    0 <= j <= n,
                    n == node.children@.len(),
                    d2 as int == next_depth(depth as int),
                    expanded == Seq::new(expanded_folders@.len(), |i: int| expanded_folders@[i]@),
                    flat_views(items@) + spec_flat_from(
                        *node,
                        d2 as int,
                        expanded,
                        search_query@,
                        j as int,
                    ) == base + seq![spec_flat_item(*node, depth as int)] + spec_flat_from(
                        *node,
                        d2 as int,
                        expanded,
                        search_query@,
                        0,
                    ),
                decreases n - j,
            {
                let child = &node.children[j];
                build_flat_list_recursive(child, d2, expanded_folders, search_query, items);
                proof {
                    assert(flat_views(items@) + spec_flat_from(
                        *node,
                        d2 as int,
                        expanded,
                        search_query@,
                        j + 1,
                    ) =~= base + seq![spec_flat_item(*node, depth as int)] + spec_flat_from(
                        *node,
                        d2 as int,
                        expanded,
                        search_query@,
                        0,
                    ));
                }
                j = j + 1;
            }
            proof {
                assert(spec_flat_from(
                    *node,
                    d2 as int,
                    expanded,
                    search_query@,
                    n as int,
                ).len() == 0);
                assert(flat_views(items@) =~= base + spec_flat_node(
                    *node,
                    depth as int,
                    expanded,
                    search_query@,
                ));
            }
        } else {
            proof {
                assert(flat_views(items@) =~= base + spec_flat_node(
                    *node,
                    depth as int,
                    expanded,
                    search_query@,
                ));
            }
        }
    } else {
        proof {
            assert(flat_views(items@) =~= base + spec_flat_node(
                *node,
                depth as int,
                expanded,
                search_query@,
            ));
        }
    }
}


/// Folders order before files; within a kind, names order
/// lexicographically.
pub open spec fn node_le(a: CachedTreeNode, b: CachedTreeNode) -> bool {
    if !a.is_file && b.is_file {
        true
    } else if a.is_file && !b.is_file {
        false
    } else {
        chars_le(a.name@, b.name@)
    }
}

/// `node_le` is total.
pub proof fn lemma_node_le_total(a: CachedTreeNode, b: CachedTreeNode)
    ensures
        node_le(a, b) || node_le(b, a),
{
    lemma_chars_le_total(a.name@, b.name@);
}

/// `node_le` is transitive.
pub proof fn lemma_node_le_trans(a: CachedTreeNode, b: CachedTreeNode, c: CachedTreeNode)
    requires
        node_le(a, b),
        node_le(b, c),
    ensures
        node_le(a, c),
{
    if a.is_file == b.is_file && b.is_file == c.is_file {
        lemma_chars_le_trans(a.name@, b.name@, c.name@);
    }
}

/// Decides `node_le`.
fn node_le_exec(a: &CachedTreeNode, b: &CachedTreeNode) -> (r: bool)
    ensures
        r == node_le(*a, *b),
{
    if !a.is_file && b.is_file {
        true
    } else if a.is_file && !b.is_file {
        false
    } else {
        chars_le_exec(a.name.as_str(), b.name.as_str())
    }
}

/// True when the nodes are ordered folders-first, each group by name.
pub open spec fn nodes_sorted(ns: Seq<CachedTreeNode>) -> bool {
    forall|i: int, j: int| 0 <= i <= j < ns.len() ==> node_le(#[trigger] ns[i], #[trigger] ns[j])
}

/// Sorts nodes folders-first, each group in ascending name order.
fn sort_nodes(nodes: Vec<CachedTreeNode>) -> (r: Vec<CachedTreeNode>)
    ensures
        r@.len() == nodes@.len(),
        nodes_sorted(r@),
{
    let mut rem = nodes;
    let mut out: Vec<CachedTreeNode> = Vec::new();
    let ghost total = rem@.len();
    while rem.len() > 0
        invariant
            out@.len() + rem@.len() == total,
            nodes_sorted(out@),
            forall|i: int, j: int|
                0 <= i < out@.len() && 0 <= j < rem@.len() ==> node_le(
                    #[trigger] out@[i],
                    #[trigger] rem@[j],
                ),
        decreases rem@.len(),
    {
        let n = rem.len();
        let mut best: usize = 0;
        let mut j: usize = 1;
        proof {
            lemma_node_le_total(rem@[0], rem@[0]);
        }
        while j < n
            invariant
                0 <= best < j <= n,
                n == rem@.len(),
                forall|k: int| 0 <= k < j ==> node_le(rem@[best as int], #[trigger] rem@[k]),
            decreases n - j,
        {
            if !node_le_exec(&rem[best], &rem[j]) {
                proof {
                    lemma_node_le_total(rem@[best as int], rem@[j as int]);
                    assert forall|k: int| 0 <= k < j + 1 implies node_le(
                        rem@[j as int],
                        #[trigger] rem@[k],
                    ) by {
                        if k < j {
                            lemma_node_le_trans(rem@[j as int], rem@[best as int], rem@[k]);
                        } else {
                            lemma_node_le_total(rem@[j as int], rem@[j as int]);
                        }
                    }
                }
                best = j;
            }
            j = j + 1;
        }
        let ghost chosen = rem@[best as int];
        let ghost pre_rem = rem@;
        let f = rem.remove(best);
        let ghost pre_out = out@;
        out.push(f);
        proof {
            assert forall|i: int, j2: int|
                0 <= i <= j2 < out@.len() implies node_le(
                #[trigger] out@[i],
                #[trigger] out@[j2],
            ) by {
                if j2 < out@.len() - 1 {
                    assert(pre_out[i] == out@[i] && pre_out[j2] == out@[j2]);
                } else if i < out@.len() - 1 {
                    assert(pre_out[i] == out@[i]);
                } else {
                    lemma_node_le_total(out@[i], out@[i]);
                }
            }
            assert forall|i: int, j2: int|
                0 <= i < out@.len() && 0 <= j2 < rem@.len() implies node_le(
                #[trigger] out@[i],
                #[trigger] rem@[j2],
            ) by {
                let moved = pre_rem.remove(best as int);
                assert(rem@ == moved);
                if i < out@.len() - 1 {
                    if j2 < best as int {
                        assert(rem@[j2] == pre_rem[j2]);
                    } else {
                        assert(rem@[j2] == pre_rem[j2 + 1]);
                    }
                } else {
                    assert(out@[i] == chosen);
                    if j2 < best as int {
                        assert(rem@[j2] == pre_rem[j2]);
                    } else {
                        assert(rem@[j2] == pre_rem[j2 + 1]);
                    }
                }
            }
        }
    }
    out
}

impl TempTreeNode {
    /// Inserts the path whose components from `index` on remain, creating
    /// intermediate folder nodes as needed. The node's own name, path and
    /// kind are untouched.
    pub fn insert_path(&mut self, components: &Vec<String>, index: usize)
        ensures
            final(self).name == old(self).name,
            final(self).full_path == old(self).full_path,
            final(self).is_file == old(self).is_file,
        decreases components@.len() - index,
    {
        if index >= components.len() {
            return ;
        }
        let is_file = index == components.len() - 1;
        let mut full_path = String::new();
        let mut k: usize = 0;
        while k <= index
            invariant
                0 <= k <= index + 1,
                index < components@.len(),
                index < usize::MAX,
            decreases index + 1 - k,
        {
            if k > 0 {
                full_path.append("/");
            }
            full_path.append(components[k].as_str());
            k = k + 1;
        }
        let n = self.children.len();
        let mut found: Option<usize> = None;
        let mut j: usize = 0;
        while j < n
            invariant
                0 <= j <= n,
                n == self.children@.len(),
                index < components@.len(),
                match found {
                    Some(f) => f < n,
                    None => true,
                },
            decreases n - j,
        {
            if str_eq(self.children[j].name.as_str(), components[index].as_str()) {
                found = Some(j);
                j = n;
            } else {
                j = j + 1;
            }
        }
        let child_idx: usize;
        match found {
            Some(f) => {
                child_idx = f;
            },
            None => {
                let node = TempTreeNode {
                    name: components[index].clone(),
                    full_path,
                    children: Vec::new(),
                    is_file,
                };
                child_idx = self.children.len();
                self.children.push(node);
            },
        }
        if !is_file {
            self.children[child_idx].insert_path(components, index + 1);
        }
    }
}

/// The sum of the children's cached file counts from position `j` on.
pub open spec fn sum_counts(cs: Seq<CachedTreeNode>, j: int) -> int
    decreases cs.len() - j,
{
    if j < 0 || j >= cs.len() {
        0
    } else {
        cs[j].file_count + sum_counts(cs, j + 1)
    }
}

/// The sum of cached file counts is never negative.
pub proof fn lemma_sum_counts_nonneg(cs: Seq<CachedTreeNode>, j: int)
    ensures
        sum_counts(cs, j) >= 0,
    decreases cs.len() - j,
{
    if !(j < 0 || j >= cs.len()) {
        lemma_sum_counts_nonneg(cs, j + 1);
    }
}

/// Converts a build-time node into a render-ready one: children are
/// converted recursively and sorted folders-first by name, and the
/// subtree's file count is cached.
pub fn convert_to_cached_tree(temp: &TempTreeNode) -> (r: CachedTreeNode)
    ensures
        r.name == temp.name,
        r.full_path == temp.full_path,
        r.is_file == temp.is_file,
        r.children@.len() == temp.children@.len(),
        nodes_sorted(r.children@),
        r.is_file ==> r.file_count == 1,
        !r.is_file ==> r.file_count as int == (if sum_counts(r.children@, 0) <= usize::MAX {
            sum_counts(r.children@, 0)
        } else {
            usize::MAX as int
        }),
    decreases *temp,
{
    let n = temp.children.len();
    let mut children: Vec<CachedTreeNode> = Vec::new();
    let mut j: usize = 0;
    while j < n
        invariant
            0 <= j <= n,
            n == temp.children@.len(),
            children@.len() == j,
        decreases n - j,
    {
        let c = convert_to_cached_tree(&temp.children[j]);
        children.push(c);
        j = j + 1;
    }
    let children = sort_nodes(children);
    let mut file_count: usize = 0;
    if temp.is_file {
        file_count = 1;
    } else {
        let mut k: usize = 0;
        let cn = children.len();
        while k < cn
            invariant
                0 <= k <= cn,
                cn == children@.len(),
                (if file_count + sum_counts(children@, k as int) <= usize::MAX {
                    file_count + sum_counts(children@, k as int)
                } else {
                    usize::MAX as int
                }) == (if sum_counts(children@, 0) <= usize::MAX {
                    sum_counts(children@, 0)
                } else {
                    usize::MAX as int
                }),
            decreases cn - k,
        {
            proof {
                lemma_sum_counts_nonneg(children@, k + 1);
            }
            let c = children[k].file_count;
            if file_count <= usize::MAX - c {
                file_count = file_count + c;
            } else {
                file_count = usize::MAX;
            }
            k = k + 1;
        }
        proof {
            lemma_sum_counts_nonneg(children@, 0);
        }
    }
    CachedTreeNode {
        name: temp.name.clone(),
        full_path: temp.full_path.clone(),
        children,
        is_file: temp.is_file,
        file_count,
    }
}

/// Builds the render-ready tree from the loaded files' component lists:
/// each path is inserted into a build-time tree, which is then converted
/// with sorted children. The root is an unnamed folder.
pub fn build_cached_tree(files: &Vec<Vec<String>>) -> (r: CachedTreeNode)
    ensures
        !r.is_file,
        r.name@.len() == 0,
        r.full_path@.len() == 0,
        nodes_sorted(r.children@),
{
    let mut temp_root = TempTreeNode {
        name: String::new(),
        full_path: String::new(),
        children: Vec::new(),
        is_file: false,
    };
    let n = files.len();
    let mut i: usize = 0;
    while i < n
        invariant
            0 <= i <= n,
            n == files@.len(),
            temp_root.name@.len() == 0,
            temp_root.full_path@.len() == 0,
            !temp_root.is_file,
        decreases n - i,
    {
        if files[i].len() > 0 {
            temp_root.insert_path(&files[i], 0);
        }
        i = i + 1;
    }
    convert_to_cached_tree(&temp_root)
}


} // verus!

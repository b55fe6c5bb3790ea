//! Helpers for the graphical shell around the codec: picking out the
//! archive folders that hold modified files, and narrowing the modified
//! set to one archive folder.

use crate::tree::{chars_le, chars_le_exec, contains_chars, is_substring, lemma_chars_le_total,
    lemma_chars_le_trans, str_eq};
use vstd::prelude::*;

verus! {

/// What finished, for the shell's notifications.
#[derive(Debug)]
pub enum CompletionStatus {
    PackingCompleted,
    ExtractionCompleted,
}

/// Font bytes are loaded by the surrounding shell; this build has no
/// loader, so the lookup always fails.
pub fn load_font_via_system(font_name: &str) -> (r: Result<Vec<u8>, String>)
    ensures
        r is Err,
{
    let _ = font_name;
    Err(String::from_str("font loading is not available on this platform"))
}

/// `p` split on forward slashes; empty pieces are kept.
pub open spec fn split_slash(p: Seq<char>) -> Seq<Seq<char>>
    decreases p.len(),
{
    if p.len() == 0 {
        seq![seq![]]
    } else {
        let rest = split_slash(p.drop_last());
        if p.last() == '/' {
            rest + seq![seq![]]
        } else {
            rest.update(rest.len() - 1, rest.last().push(p.last()))
        }
    }
}

/// True when `c` names an archive folder: it starts with `arc_` and
/// contains `_ep_`.
pub open spec fn is_arc_component(c: Seq<char>) -> bool {
    c.len() >= 4 && c[0] == 'a' && c[1] == 'r' && c[2] == 'c' && c[3] == '_' && is_substring(
        seq!['_', 'e', 'p', '_'],
        c,
    )
}

/// The first archive-folder component of the pieces from position `j` on.
pub open spec fn first_arc(pieces: Seq<Seq<char>>, j: int) -> Option<Seq<char>>
    decreases pieces.len() - j,
{
    if j < 0 || j >= pieces.len() {
        None
    } else if is_arc_component(pieces[j]) {
        Some(pieces[j])
    } else {
        first_arc(pieces, j + 1)
    }
}

/// The archive-folder component of a path, if any: the first path
/// component that starts with `arc_` and contains `_ep_`.
pub open spec fn spec_get_arc_folder(p: Seq<char>) -> Option<Seq<char>> {
    first_arc(split_slash(p), 0)
}

/// Splits a path on forward slashes.
fn split_slash_exec(p: &str) -> (r: Vec<String>)
    ensures
        r@.len() == split_slash(p@).len(),
        forall|i: int| 0 <= i < r@.len() ==> (#[trigger] r@[i])@ == split_slash(p@)[i],
{
    let len = p.unicode_len();
    let mut done: Vec<String> = Vec::new();
    let ghost mut gdone: Seq<Seq<char>> = Seq::empty();
    let mut start: usize = 0;
    let mut i: usize = 0;
    proof {
        assert(p@.take(0) =~= Seq::<char>::empty());
        assert(p@.subrange(0, 0) =~= Seq::<char>::empty());
        assert(split_slash(p@.take(0)) =~= gdone + seq![p@.subrange(0, 0)]);
    }
    while i < len
        invariant
            0 <= start <= i <= len,
            len == p@.len(),
            gdone.len() == done@.len(),
            forall|j: int| 0 <= j < done@.len() ==> (#[trigger] done@[j])@ == gdone[j],
            split_slash(p@.take(i as int)) == gdone + seq![p@.subrange(start as int, i as int)],
        decreases len - i,
    {
        let c = p.get_char(i);
        proof {
            let pre = p@.take(i + 1);
            assert(pre.drop_last() =~= p@.take(i as int));
            assert(pre.last() == p@[i as int]);
        }
        if c == '/' {
            proof {
                assert(split_slash(p@.take(i + 1)) =~= (gdone + seq![
                    p@.subrange(start as int, i as int),
                ]) + seq![Seq::<char>::empty()]);
            }
            let piece = p.substring_char(start, i).to_owned();
            proof {
                gdone = gdone + seq![p@.subrange(start as int, i as int)];
            }
            done.push(piece);
            start = i + 1;
            proof {
                assert(p@.subrange(start as int, i + 1) =~= Seq::<char>::empty());
                assert(split_slash(p@.take(i + 1)) =~= gdone + seq![
                    p@.subrange(start as int, i + 1),
                ]);
            }
        } else {
            proof {
                let old_list = gdone + seq![p@.subrange(start as int, i as int)];
                assert(old_list.len() - 1 == gdone.len());
                assert(old_list.last() == p@.subrange(start as int, i as int));
                assert(p@.subrange(start as int, i + 1) =~= p@.subrange(
                    start as int,
                    i as int,
                ).push(c));
                assert(old_list.update(old_list.len() - 1, p@.subrange(start as int, i + 1)) =~= (
                gdone + seq![p@.subrange(start as int, i + 1)]));
            }
        }
        i = i + 1;
    }
    proof {
        assert(p@.take(len as int) =~= p@);
    }
    let piece = p.substring_char(start, len).to_owned();
    done.push(piece);
    proof {
        assert(done@.len() == gdone.len() + 1);
        assert(forall|j: int|
            0 <= j < gdone.len() ==> (#[trigger] done@[j])@ == (gdone + seq![
                p@.subrange(start as int, len as int),
            ])[j]);
        assert(done@[gdone.len() as int]@ == (gdone + seq![
            p@.subrange(start as int, len as int),
        ])[gdone.len() as int]);
    }
    done
}

/// Decides whether a component names an archive folder.
fn is_arc_component_exec(c: &str) -> (r: bool)
    ensures
        r == is_arc_component(c@),
{
    let len = c.unicode_len();
    if len < 4 {
        return false;
    }
    if !(c.get_char(0) == 'a' && c.get_char(1) == 'r' && c.get_char(2) == 'c' && c.get_char(3)
        == '_') {
        return false;
    }
    proof {
        reveal_strlit("_ep_");
        assert("_ep_"@ =~= seq!['_', 'e', 'p', '_']);
    }
    contains_chars(c, "_ep_")
}

/// The archive folder a path belongs to: the first path component that
/// starts with `arc_` and contains `_ep_`, or nothing.
pub fn get_arc_folder_from_path(path: &String) -> (r: Option<String>)
    ensures
        match r {
            Some(s) => spec_get_arc_folder(path@) == Some(s@),
            None => spec_get_arc_folder(path@) is None,
        },
{
    let pieces = split_slash_exec(path.as_str());
    let ghost ps = split_slash(path@);
    let n = pieces.len();
    let mut j: usize = 0;
    while j < n
        invariant
            0 <= j <= n,
            n == ps.len(),
            n == pieces@.len(),
            ps == split_slash(path@),
            forall|k: int| 0 <= k < n ==> (#[trigger] pieces@[k])@ == ps[k],
            first_arc(ps, 0) == first_arc(ps, j as int),
        decreases n - j,
    {
        if is_arc_component_exec(pieces[j].as_str()) {
            let ghost found = pieces@[j as int]@;
            let r = pieces[j].clone();
            proof {
                assert(is_arc_component(ps[j as int]));
                assert(first_arc(ps, j as int) == Some(ps[j as int]));
                assert(r@ == ps[j as int]);
            }
            return Some(r);
        }
        proof {
            assert(!is_arc_component(ps[j as int]));
            assert(first_arc(ps, j as int) == first_arc(ps, j + 1));
        }
        j = j + 1;
    }
    proof {
        assert(first_arc(ps, n as int) is None);
    }
    None
}

/// True when the string list holds `p`.
fn string_list_contains(list: &Vec<String>, p: &str) -> (r: bool)
    ensures
        r == Seq::new(list@.len(), |i: int| list@[i]@).contains(p@),
{
    let ghost s = Seq::new(list@.len(), |i: int| list@[i]@);
    let n = list.len();
    let mut i: usize = 0;
    while i < n
        invariant
            0 <= i <= n,
            n == list@.len(),
            s == Seq::new(list@.len(), |k: int| list@[k]@),
            forall|k: int| 0 <= k < i ==> s[k] != p@,
        decreases n - i,
    {
        if str_eq(list[i].as_str(), p) {
            assert(s[i as int] == p@);
            return true;
        }
        i = i + 1;
    }
    proof {
        if s.contains(p@) {
            let k = choose|k: int| 0 <= k < s.len() && s[k] == p@;
        }
    }
    false
}

/// The views of a string list.
pub open spec fn string_views(list: Seq<String>) -> Seq<Seq<char>> {
    Seq::new(list.len(), |i: int| list[i]@)
}

/// Sorts strings in ascending character order.
fn sort_strings(list: Vec<String>) -> (r: Vec<String>)
    ensures
        string_views(r@).to_multiset() == string_views(list@).to_multiset(),
        forall|i: int, j: int|
            0 <= i <= j < r@.len() ==> chars_le(
                #[trigger] string_views(r@)[i],
                #[trigger] string_views(r@)[j],
            ),
{
    broadcast use vstd::seq_lib::group_to_multiset_ensures;
    broadcast use vstd::multiset::group_multiset_axioms;

    let ghost orig = string_views(list@).to_multiset();
    let mut rem = list;
    let mut out: Vec<String> = Vec::new();
    proof {
        assert(string_views(out@) =~= Seq::<Seq<char>>::empty());
        assert(string_views(out@).to_multiset().add(string_views(rem@).to_multiset()) =~= orig);
    }
    while rem.len() > 0
        invariant
            string_views(out@).to_multiset().add(string_views(rem@).to_multiset()) == orig,
            forall|i: int, j: int|
                0 <= i <= j < out@.len() ==> chars_le(
                    #[trigger] string_views(out@)[i],
                    #[trigger] string_views(out@)[j],
                ),
            forall|i: int, j: int|
                0 <= i < out@.len() && 0 <= j < rem@.len() ==> chars_le(
                    #[trigger] string_views(out@)[i],
                    #[trigger] string_views(rem@)[j],
                ),
        decreases rem@.len(),
    {
        let ghost rv = string_views(rem@);
        let n = rem.len();
        let mut best: usize = 0;
        let mut j: usize = 1;
        proof {
            lemma_chars_le_total(rv[0], rv[0]);
        }
        while j < n
            invariant
                0 <= best < j <= n,
                n == rem@.len(),
                rv == string_views(rem@),
                forall|k: int| 0 <= k < j ==> chars_le(rv[best as int], #[trigger] rv[k]),
            decreases n - j,
        {
            if !chars_le_exec(rem[best].as_str(), rem[j].as_str()) {
                proof {
                    lemma_chars_le_total(rv[best as int], rv[j as int]);
                    assert forall|k: int| 0 <= k < j + 1 implies chars_le(
                        rv[j as int],
                        #[trigger] rv[k],
                    ) by {
                        if k < j {
                            lemma_chars_le_trans(rv[j as int], rv[best as int], rv[k]);
                        } else {
                            lemma_chars_le_total(rv[j as int], rv[j as int]);
                        }
                    }
                }
                best = j;
            }
            j = j + 1;
        }
        let ghost chosen = rv[best as int];
        let f = rem.remove(best);
        proof {
            assert(f@ == chosen);
            assert(string_views(rem@) =~= rv.remove(best as int));
        }
        let ghost pre_out = string_views(out@);
        out.push(f);
        proof {
            broadcast use vstd::seq_lib::group_to_multiset_ensures;
            broadcast use vstd::multiset::group_multiset_axioms;

            assert(string_views(out@) =~= pre_out.push(chosen));
            assert(rv.contains(chosen)) by {
                assert(rv[best as int] == chosen);
            }
            assert(rv.to_multiset().count(chosen) > 0);
            assert(string_views(out@).to_multiset().add(string_views(rem@).to_multiset())
                =~= orig);
            assert forall|i: int, j2: int|
                0 <= i <= j2 < out@.len() implies chars_le(
                #[trigger] string_views(out@)[i],
                #[trigger] string_views(out@)[j2],
            ) by {
                let ov = string_views(out@);
                if j2 < ov.len() - 1 {
                    assert(pre_out[i] == ov[i] && pre_out[j2] == ov[j2]);
                } else if i < ov.len() - 1 {
                    assert(pre_out[i] == ov[i]);
                } else {
                    lemma_chars_le_total(ov[i], ov[i]);
                }
            }
        }
    }
    proof {
        broadcast use vstd::seq_lib::group_to_multiset_ensures;

        assert(string_views(rem@).len() == 0);
        assert(string_views(rem@).to_multiset() =~= vstd::multiset::Multiset::<
            Seq<char>,
        >::empty());
        assert(string_views(out@).to_multiset() =~= orig);
    }
    out
}

/// The archive folders that hold modified files, each once, in ascending
/// order.
pub fn get_modified_arc_folders(modified_files: &Vec<String>) -> (r: Vec<String>)
    ensures
        ({
            let mods = string_views(modified_files@);
            let rv = string_views(r@);
            &&& forall|x: Seq<char>|
                rv.contains(x) <==> exists|k: int|
                    0 <= k < mods.len() && spec_get_arc_folder(#[trigger] mods[k]) == Some(x)
            &&& forall|i: int, j: int|
                0 <= i <= j < rv.len() ==> chars_le(#[trigger] rv[i], #[trigger] rv[j])
        }),
{
    broadcast use vstd::seq_lib::group_to_multiset_ensures;

    let ghost mods = string_views(modified_files@);
    let n = modified_files.len();
    let mut collected: Vec<String> = Vec::new();
    let mut i: usize = 0;
    while i < n
        invariant
            0 <= i <= n,
            n == modified_files@.len(),
            mods == string_views(modified_files@),
            forall|x: Seq<char>|
                string_views(collected@).contains(x) <==> exists|k: int|
                    0 <= k < i && spec_get_arc_folder(#[trigger] mods[k]) == Some(x),
        decreases n - i,
    {
        let ghost pre = string_views(collected@);
        match get_arc_folder_from_path(&modified_files[i]) {
            Some(folder) => {
                if !string_list_contains(&collected, folder.as_str()) {
                    let ghost fv = folder@;
                    collected.push(folder);
                    proof {
                        assert(string_views(collected@) =~= pre.push(fv));
                        assert forall|x: Seq<char>|
                            string_views(collected@).contains(x) implies exists|k: int|
                            0 <= k < i + 1 && spec_get_arc_folder(#[trigger] mods[k]) == Some(
                                x,
                            ) by {
                            if x == fv {
                                assert(mods[i as int] == modified_files@[i as int]@);
                                assert(spec_get_arc_folder(mods[i as int]) == Some(x));
                            } else {
                                assert(pre.contains(x)) by {
                                    let w = choose|w: int|
                                        0 <= w < string_views(collected@).len() && string_views(
                                            collected@,
                                        )[w] == x;
                                    assert(pre[w] == x);
                                }
                            }
                        }
                        assert forall|x: Seq<char>|
                            (exists|k: int|
                                0 <= k < i + 1 && spec_get_arc_folder(#[trigger] mods[k]) == Some(
                                    x,
                                )) implies string_views(collected@).contains(x) by {
                            let k = choose|k: int|
                                0 <= k < i + 1 && spec_get_arc_folder(#[trigger] mods[k]) == Some(
                                    x,
                                );
                            if k < i {
                                assert(pre.contains(x));
                                let w = choose|w: int| 0 <= w < pre.len() && pre[w] == x;
                                assert(string_views(collected@)[w] == x);
                            } else {
                                assert(x == fv);
                                assert(string_views(collected@).last() == fv);
                            }
                        }
                    }
                } else {
                    proof {
                        assert(mods[i as int] == modified_files@[i as int]@);
                        assert forall|x: Seq<char>|
                            (exists|k: int|
                                0 <= k < i + 1 && spec_get_arc_folder(#[trigger] mods[k]) == Some(
                                    x,
                                )) implies string_views(collected@).contains(x) by {
                            let k = choose|k: int|
                                0 <= k < i + 1 && spec_get_arc_folder(#[trigger] mods[k]) == Some(
                                    x,
                                );
                        }
                    }
                }
            },
            None => {
                proof {
                    assert(mods[i as int] == modified_files@[i as int]@);
                    assert forall|x: Seq<char>|
                        (exists|k: int|
                            0 <= k < i + 1 && spec_get_arc_folder(#[trigger] mods[k]) == Some(
                                x,
                            )) implies string_views(collected@).contains(x) by {
                        let k = choose|k: int|
                            0 <= k < i + 1 && spec_get_arc_folder(#[trigger] mods[k]) == Some(x);
                    }
                }
            },
        }
        i = i + 1;
    }
    let sorted = sort_strings(collected);
    proof {
        broadcast use vstd::seq_lib::group_to_multiset_ensures;

        assert forall|x: Seq<char>|
            string_views(sorted@).contains(x) <==> exists|k: int|
                0 <= k < mods.len() && spec_get_arc_folder(#[trigger] mods[k]) == Some(x) by {
            assert(string_views(sorted@).contains(x) <==> string_views(
                sorted@,
            ).to_multiset().count(x) > 0);
        }
    }
    sorted
}

/// `s` with every backslash folded to a forward slash.
pub open spec fn char_norm_slashes(s: Seq<char>) -> Seq<char> {
    s.map_values(
        |c: char|
            if c == '\\' {
                '/'
            } else {
                c
            },
    )
}

/// Relies on `str::replace` with character patterns: every occurrence of
/// the pattern character is replaced, so the result maps each character.
#[verifier::external_body]
fn replace_backslashes(s: &str) -> (r: String)
    ensures
        r@ == char_norm_slashes(s@),
{
    s.replace('\\', "/")
}

/// The path `p` relative to the archive folder, when `p` lies under it:
/// the folder name, a slash or backslash, then the rest, which is
/// returned with backslashes folded to forward slashes.
pub open spec fn spec_strip_arc(p: Seq<char>, arc: Seq<char>) -> Option<Seq<char>> {
    if p.len() > arc.len() && p.subrange(0, arc.len() as int) == arc && (p[arc.len() as int] == '/'
        || p[arc.len() as int] == '\\') {
        Some(char_norm_slashes(p.skip(arc.len() as int + 1)))
    } else {
        None
    }
}

/// The modified paths that lie under the archive folder, rewritten
/// relative to it with forward slashes, each once.
pub fn get_modified_files_for_arc(modified_files: &Vec<String>, arc_folder_name: &str) -> (r: Vec<
    String,
>)
    ensures
        ({
            let mods = string_views(modified_files@);
            let rv = string_views(r@);
            forall|x: Seq<char>|
                rv.contains(x) <==> exists|k: int|
                    0 <= k < mods.len() && spec_strip_arc(#[trigger] mods[k], arc_folder_name@)
                        == Some(x)
        }),
{
    let ghost mods = string_views(modified_files@);
    let ghost arc = arc_folder_name@;
    let alen = arc_folder_name.unicode_len();
    let n = modified_files.len();
    let mut out: Vec<String> = Vec::new();
    let mut i: usize = 0;
    while i < n
        invariant
            0 <= i <= n,
            n == modified_files@.len(),
            alen == arc.len(),
            arc == arc_folder_name@,
            mods == string_views(modified_files@),
            forall|x: Seq<char>|
                string_views(out@).contains(x) <==> exists|k: int|
                    0 <= k < i && spec_strip_arc(#[trigger] mods[k], arc) == Some(x),
        decreases n - i,
    {
        let p = &modified_files[i];
        let plen = p.as_str().unicode_len();
        let ghost pre = string_views(out@);
        proof {
            assert(mods[i as int] == modified_files@[i as int]@);
        }
        let mut matches_prefix = plen > alen;
        if matches_prefix {
            let mut k: usize = 0;
            while k < alen
                invariant
                    0 <= k <= alen,
                    alen < plen,
                    plen == p@.len(),
                    alen == arc.len(),
                    arc == arc_folder_name@,
                    matches_prefix == forall|w: int| 0 <= w < k ==> p@[w] == #[trigger] arc[w],
                decreases alen - k,
            {
                if p.as_str().get_char(k) != arc_folder_name.get_char(k) {
                    proof {
                        assert(p@[k as int] != arc[k as int]);
                        assert(!(forall|w: int|
                            0 <= w < k + 1 ==> p@[w] == #[trigger] arc[w])) by {
                            assert(p@[k as int] != arc[k as int]);
                        }
                    }
                    matches_prefix = false;
                    k = alen;
                } else {
                    proof {
                        if matches_prefix {
                            assert forall|w: int| 0 <= w < k + 1 implies p@[w] == #[trigger] arc[w]
                                by {}
                        }
                    }
                    k = k + 1;
                }
            }
        }
        let mut stripped: Option<String> = None;
        if matches_prefix {
            let sep = p.as_str().get_char(alen);
            if sep == '/' || sep == '\\' {
                proof {
                    assert(p@.subrange(0, arc.len() as int) =~= arc);
                }
                let rest = p.as_str().substring_char(alen + 1, plen);
                let norm = replace_backslashes(rest);
                proof {
                    assert(rest@ =~= p@.skip(arc.len() as int + 1));
                }
                stripped = Some(norm);
            }
        }
        proof {
            if matches_prefix {
            } else {
                if p@.len() > arc.len() && p@.subrange(0, arc.len() as int) == arc {
                    assert(forall|w: int|
                        0 <= w < arc.len() ==> p@[w] == #[trigger] arc[w]) by {
                        assert(forall|w: int|
                            0 <= w < arc.len() ==> #[trigger] p@.subrange(0, arc.len() as int)[w]
                                == p@[w]);
                    }
                }
            }
        }
        match stripped {
            Some(s) => {
                proof {
                    assert(spec_strip_arc(mods[i as int], arc) == Some(s@));
                }
                if !string_list_contains(&out, s.as_str()) {
                    let ghost sv = s@;
                    out.push(s);
                    proof {
                        assert(string_views(out@) =~= pre.push(sv));
                        assert forall|x: Seq<char>|
                            string_views(out@).contains(x) implies exists|k: int|
                            0 <= k < i + 1 && spec_strip_arc(#[trigger] mods[k], arc) == Some(
                                x,
                            ) by {
                            if x == sv {
                                assert(spec_strip_arc(mods[i as int], arc) == Some(x));
                            } else {
                                assert(pre.contains(x)) by {
                                    let w = choose|w: int|
                                        0 <= w < string_views(out@).len() && string_views(
                                            out@,
                                        )[w] == x;
                                    assert(pre[w] == x);
                                }
                            }
                        }
                        assert forall|x: Seq<char>|
                            (exists|k: int|
                                0 <= k < i + 1 && spec_strip_arc(#[trigger] mods[k], arc) == Some(
                                    x,
                                )) implies string_views(out@).contains(x) by {
                            let k = choose|k: int|
                                0 <= k < i + 1 && spec_strip_arc(#[trigger] mods[k], arc) == Some(
                                    x,
                                );
                            if k < i {
                                assert(pre.contains(x));
                                let w = choose|w: int| 0 <= w < pre.len() && pre[w] == x;
                                assert(string_views(out@)[w] == x);
                            } else {
                                assert(string_views(out@).last() == sv);
                            }
                        }
                    }
                } else {
                    proof {
                        assert forall|x: Seq<char>|
                            (exists|k: int|
                                0 <= k < i + 1 && spec_strip_arc(#[trigger] mods[k], arc) == Some(
                                    x,
                                )) implies string_views(out@).contains(x) by {
                            let k = choose|k: int|
                                0 <= k < i + 1 && spec_strip_arc(#[trigger] mods[k], arc) == Some(
                                    x,
                                );
                        }
                    }
                }
            },
            None => {
                proof {
                    assert(spec_strip_arc(mods[i as int], arc) is None);
                    assert forall|x: Seq<char>|
                        (exists|k: int|
                            0 <= k < i + 1 && spec_strip_arc(#[trigger] mods[k], arc) == Some(
                                x,
                            )) implies string_views(out@).contains(x) by {
                        let k = choose|k: int|
                            0 <= k < i + 1 && spec_strip_arc(#[trigger] mods[k], arc) == Some(x);
                    }
                }
            },
        }
        i = i + 1;
    }
    out
}

} // verus!

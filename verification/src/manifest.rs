//! The manifest: the newline-separated list of archive-internal paths that
//! entry 0 stores. Parsing normalizes whitespace, byte-order marks and
//! backslashes; generating joins paths with single newlines and no trailing
//! newline.

use vstd::prelude::*;

verus! {

/// True for the ASCII whitespace bytes that line trimming removes.
pub open spec fn is_ws(c: u8) -> bool {
    c == 0x09 || c == 0x0a || c == 0x0b || c == 0x0c || c == 0x0d || c == 0x20
}

/// `s` with leading and trailing whitespace bytes removed.
pub open spec fn trim_ws(s: Seq<u8>) -> Seq<u8>
    decreases s.len(),
{
    if s.len() == 0 {
        s
    } else if is_ws(s.first()) {
        trim_ws(s.skip(1))
    } else if is_ws(s.last()) {
        trim_ws(s.take(s.len() - 1))
    } else {
        s
    }
}

/// `s` with every leading UTF-8 byte-order mark removed.
pub open spec fn strip_boms(s: Seq<u8>) -> Seq<u8>
    decreases s.len(),
{
    if s.len() >= 3 && s[0] == 0xef && s[1] == 0xbb && s[2] == 0xbf {
        strip_boms(s.skip(3))
    } else {
        s
    }
}

/// `s` with every backslash replaced by a forward slash.
pub open spec fn norm_slashes(s: Seq<u8>) -> Seq<u8> {
    s.map_values(
        |c: u8|
            if c == 0x5c {
                0x2fu8
            } else {
                c
            },
    )
}

/// One manifest line, normalized: trimmed, byte-order marks stripped,
/// backslashes folded to forward slashes.
pub open spec fn norm_line(s: Seq<u8>) -> Seq<u8> {
    norm_slashes(strip_boms(trim_ws(s)))
}

/// `t` split on newline bytes; empty pieces are kept, so the result holds
/// one piece more than `t` holds newlines.
pub open spec fn split_nl(t: Seq<u8>) -> Seq<Seq<u8>>
    decreases t.len(),
{
    if t.len() == 0 {
        seq![seq![]]
    } else {
        let rest = split_nl(t.drop_last());
        if t.last() == 0x0a {
            rest + seq![seq![]]
        } else {
            rest.update(rest.len() - 1, rest.last().push(t.last()))
        }
    }
}

/// The normalized, nonempty lines of the pieces `lines`.
pub open spec fn norm_nonempty_lines(lines: Seq<Seq<u8>>) -> Seq<Seq<u8>>
    decreases lines.len(),
{
    if lines.len() == 0 {
        seq![]
    } else {
        let n0 = norm_line(lines[0]);
        (if n0.len() == 0 {
            seq![]
        } else {
            seq![n0]
        }) + norm_nonempty_lines(lines.skip(1))
    }
}

/// The manifest paths parsed from the blob `t`: split on newlines, each
/// line normalized, empty lines discarded.
pub open spec fn spec_manifest_lines(t: Seq<u8>) -> Seq<Seq<u8>> {
    norm_nonempty_lines(split_nl(t))
}

/// Extending the piece list by one piece appends its normalized form when
/// that is nonempty.
pub proof fn lemma_norm_nonempty_snoc(lines: Seq<Seq<u8>>, i: int)
    requires
        0 <= i < lines.len(),
    ensures
        norm_nonempty_lines(lines.take(i + 1)) == norm_nonempty_lines(lines.take(i)) + (
        if norm_line(lines[i]).len() == 0 {
            Seq::<Seq<u8>>::empty()
        } else {
            seq![norm_line(lines[i])]
        }),
    decreases i,
{
    if i == 0 {
        assert(lines.take(1) =~= seq![lines[0]]);
        assert(lines.take(1).skip(1) =~= Seq::<Seq<u8>>::empty());
        assert(norm_nonempty_lines(lines.take(0)).len() == 0);
        assert(norm_nonempty_lines(lines.take(1).skip(1)).len() == 0);
        assert(lines.take(1)[0] == lines[0]);
        assert(norm_nonempty_lines(lines.take(1)) =~= norm_nonempty_lines(lines.take(0)) + (
        if norm_line(lines[0]).len() == 0 {
            Seq::<Seq<u8>>::empty()
        } else {
            seq![norm_line(lines[0])]
        }));
    } else {
        lemma_norm_nonempty_snoc(lines.skip(1), i - 1);
        assert(lines.take(i + 1).skip(1) =~= lines.skip(1).take(i));
        assert(lines.take(i).skip(1) =~= lines.skip(1).take(i - 1));
        assert(lines.take(i + 1)[0] == lines[0]);
        assert(lines.take(i)[0] == lines[0]);
        assert(lines.skip(1)[i - 1] == lines[i]);
        assert(norm_nonempty_lines(lines.take(i + 1)) =~= norm_nonempty_lines(lines.take(i)) + (
        if norm_line(lines[i]).len() == 0 {
            Seq::<Seq<u8>>::empty()
        } else {
            seq![norm_line(lines[i])]
        }));
    }
}

/// Trimming yields exactly the subrange between the outermost non-space
/// bytes.
pub proof fn lemma_trim_subrange(s: Seq<u8>, a: int, b: int)
    requires
        0 <= a <= b <= s.len(),
        forall|i: int| 0 <= i < a ==> is_ws(#[trigger] s[i]),
        forall|i: int| b <= i < s.len() ==> is_ws(#[trigger] s[i]),
        a < b ==> !is_ws(s[a]) && !is_ws(s[b - 1]),
    ensures
        trim_ws(s) == s.subrange(a, b),
    decreases s.len(),
{
    if s.len() == 0 {
        assert(s.subrange(0, 0) =~= s);
    } else if is_ws(s.first()) {
        if a == 0 {
            assert(b == 0) by {
                if b > 0 {
                    assert(!is_ws(s[0]));
                }
            }
            lemma_trim_subrange(s.skip(1), 0, 0);
            assert(s.skip(1).subrange(0, 0) =~= s.subrange(0, 0));
        } else {
            lemma_trim_subrange(s.skip(1), a - 1, b - 1);
            assert(s.skip(1).subrange(a - 1, b - 1) =~= s.subrange(a, b));
        }
    } else if is_ws(s.last()) {
        if b == s.len() {
            assert(a == b) by {
                if a < b {
                    assert(!is_ws(s[b - 1]));
                }
            }
            lemma_trim_subrange(s.take(s.len() - 1), s.len() - 1, s.len() - 1);
            assert(s.take(s.len() - 1).subrange(s.len() - 1, s.len() - 1) =~= s.subrange(a, b));
        } else {
            lemma_trim_subrange(s.take(s.len() - 1), a, b);
            assert(s.take(s.len() - 1).subrange(a, b) =~= s.subrange(a, b));
        }
    } else {
        assert(a == 0) by {
            if a > 0 {
                assert(is_ws(s[0]));
            }
        }
        assert(b == s.len()) by {
            if b < s.len() {
                assert(is_ws(s[s.len() - 1]));
            }
        }
        assert(s.subrange(0, s.len() as int) =~= s);
    }
}

/// Normalizes one piece of the manifest: trims whitespace, strips leading
/// byte-order marks, folds backslashes to forward slashes.
pub fn normalize_line(s: &[u8]) -> (r: Vec<u8>)
    ensures
        r@ == norm_line(s@),
{
    let len = s.len();
    let mut a: usize = 0;
    while a < len && (s[a] == 0x09 || s[a] == 0x0a || s[a] == 0x0b || s[a] == 0x0c || s[a] == 0x0d
        || s[a] == 0x20)
        invariant
            0 <= a <= len,
            len == s@.len(),
            forall|i: int| 0 <= i < a ==> is_ws(#[trigger] s@[i]),
        decreases len - a,
    {
        a = a + 1;
    }
    let mut b: usize = len;
    while b > a && (s[b - 1] == 0x09 || s[b - 1] == 0x0a || s[b - 1] == 0x0b || s[b - 1] == 0x0c
        || s[b - 1] == 0x0d || s[b - 1] == 0x20)
        invariant
            a <= b <= len,
            len == s@.len(),
            forall|i: int| 0 <= i < a ==> is_ws(#[trigger] s@[i]),
            forall|i: int| b <= i < len ==> is_ws(#[trigger] s@[i]),
        decreases b,
    {
        b = b - 1;
    }
    proof {
        if a < b {
            assert(!is_ws(s@[a as int]));
            assert(!is_ws(s@[b - 1]));
        } else {
            assert(a == b);
        }
        lemma_trim_subrange(s@, a as int, b as int);
    }
    let ghost t = trim_ws(s@);
    let mut start = a;
    while b - start >= 3 && s[start] == 0xef && s[start + 1] == 0xbb && s[start + 2] == 0xbf
        invariant
            a <= start <= b <= len,
            len == s@.len(),
            t == s@.subrange(a as int, b as int),
            strip_boms(t) == strip_boms(s@.subrange(start as int, b as int)),
        decreases b - start,
    {
        proof {
            let cur = s@.subrange(start as int, b as int);
            assert(cur.len() >= 3 && cur[0] == 0xef && cur[1] == 0xbb && cur[2] == 0xbf);
            assert(cur.skip(3) =~= s@.subrange(start + 3, b as int));
        }
        start = start + 3;
    }
    proof {
        let cur = s@.subrange(start as int, b as int);
        assert(!(cur.len() >= 3 && cur[0] == 0xef && cur[1] == 0xbb && cur[2] == 0xbf));
        assert(strip_boms(t) == cur);
    }
    let mut r: Vec<u8> = Vec::new();
    let mut i = start;
    while i < b
        invariant
            start <= i <= b <= len,
            len == s@.len(),
            r@.len() == i - start,
            forall|j: int|
                0 <= j < i - start ==> r@[j] == (if s@[start + j] == 0x5c {
                    0x2fu8
                } else {
                    s@[start + j]
                }),
        decreases b - i,
    {
        let c = s[i];
        if c == 0x5c {
            r.push(0x2f);
        } else {
            r.push(c);
        }
        i = i + 1;
    }
    proof {
        assert(r@ =~= norm_slashes(strip_boms(trim_ws(s@))));
    }
    r
}

/// Splits the manifest blob `t` into its pieces between newline bytes.
pub fn split_lines(t: &[u8]) -> (r: Vec<Vec<u8>>)
    ensures
        r@.len() == split_nl(t@).len(),
        forall|i: int| 0 <= i < r@.len() ==> (#[trigger] r@[i])@ == split_nl(t@)[i],
{
    let len = t.len();
    let mut done: Vec<Vec<u8>> = Vec::new();
    let ghost mut gdone: Seq<Seq<u8>> = Seq::empty();
    let mut cur: Vec<u8> = Vec::new();
    let mut i: usize = 0;
    proof {
        assert(t@.take(0) =~= Seq::<u8>::empty());
        assert(split_nl(t@.take(0)) =~= gdone + seq![cur@]);
    }
    while i < len
        invariant
            0 <= i <= len,
            len == t@.len(),
            gdone.len() == done@.len(),
            forall|j: int| 0 <= j < done@.len() ==> (#[trigger] done@[j])@ == gdone[j],
            split_nl(t@.take(i as int)) == gdone + seq![cur@],
        decreases len - i,
    {
        let c = t[i];
        proof {
            let pre = t@.take(i + 1);
            assert(pre.drop_last() =~= t@.take(i as int));
            assert(pre.last() == t@[i as int]);
        }
        if c == 0x0a {
            proof {
                assert(split_nl(t@.take(i + 1)) =~= (gdone + seq![cur@]) + seq![
                    Seq::<u8>::empty(),
                ]);
            }
            done.push(cur);
            proof {
                gdone = gdone + seq![cur@];
            }
            cur = Vec::new();
            proof {
                assert(split_nl(t@.take(i + 1)) =~= gdone + seq![cur@]);
            }
        } else {
            proof {
                let old_list = gdone + seq![cur@];
                assert(old_list.len() - 1 == gdone.len());
                assert(old_list.last() == cur@);
                assert(old_list.update(old_list.len() - 1, cur@.push(c)) =~= gdone + seq![
                    cur@.push(c),
                ]);
            }
            cur.push(c);
        }
        i = i + 1;
    }
    proof {
        assert(t@.take(len as int) =~= t@);
    }
    done.push(cur);
    proof {
        assert(done@.len() == gdone.len() + 1);
        assert(forall|j: int|
            0 <= j < gdone.len() ==> (#[trigger] done@[j])@ == (gdone + seq![cur@])[j]);
        assert(done@[gdone.len() as int]@ == (gdone + seq![cur@])[gdone.len() as int]);
    }
    done
}

/// Parses the manifest blob: splits on newlines, normalizes each line and
/// discards the empty ones.
pub fn normalize_manifest_lines(t: &[u8]) -> (r: Vec<Vec<u8>>)
    ensures
        r@.len() == spec_manifest_lines(t@).len(),
        forall|i: int| 0 <= i < r@.len() ==> (#[trigger] r@[i])@ == spec_manifest_lines(t@)[i],
{
    let pieces = split_lines(t);
    let ghost ps = split_nl(t@);
    let n = pieces.len();
    let mut r: Vec<Vec<u8>> = Vec::new();
    let ghost mut gr: Seq<Seq<u8>> = Seq::empty();
    let mut i: usize = 0;
    proof {
        assert(ps.take(0) =~= Seq::<Seq<u8>>::empty());
        assert(norm_nonempty_lines(ps.take(0)) =~= gr);
    }
    while i < n
        invariant
            0 <= i <= n,
            n == ps.len(),
            n == pieces@.len(),
            forall|j: int| 0 <= j < n ==> (#[trigger] pieces@[j])@ == ps[j],
            gr.len() == r@.len(),
            forall|j: int| 0 <= j < r@.len() ==> (#[trigger] r@[j])@ == gr[j],
            norm_nonempty_lines(ps.take(i as int)) == gr,
        decreases n - i,
    {
        let line = normalize_line(pieces[i].as_slice());
        proof {
            lemma_norm_nonempty_snoc(ps, i as int);
        }
        if line.len() > 0 {
            proof {
                gr = gr + seq![line@];
                assert(norm_nonempty_lines(ps.take(i + 1)) =~= gr);
            }
            r.push(line);
        } else {
            proof {
                assert(norm_nonempty_lines(ps.take(i + 1)) =~= gr);
            }
        }
        i = i + 1;
    }
    proof {
        assert(ps.take(n as int) =~= ps);
    }
    r
}

/// The manifest bytes for the path list `ps`: paths joined by single
/// newlines, with no trailing newline.
pub open spec fn join_nl(ps: Seq<Seq<u8>>) -> Seq<u8>
    decreases ps.len(),
{
    if ps.len() == 0 {
        seq![]
    } else if ps.len() == 1 {
        ps[0]
    } else {
        ps[0] + seq![0x0au8] + join_nl(ps.skip(1))
    }
}

/// Extending the joined prefix by one path appends a newline (when a path
/// was already joined) and the new path.
pub proof fn lemma_join_nl_snoc(ps: Seq<Seq<u8>>, i: int)
    requires
        0 <= i < ps.len(),
    ensures
        i == 0 ==> join_nl(ps.take(1)) == ps[0],
        i > 0 ==> join_nl(ps.take(i + 1)) == join_nl(ps.take(i)) + seq![0x0au8] + ps[i],
    decreases i,
{
    if i == 0 {
        assert(ps.take(1) =~= seq![ps[0]]);
        assert(ps.take(1)[0] == ps[0]);
    } else {
        lemma_join_nl_snoc(ps.skip(1), i - 1);
        assert(ps.take(i + 1).skip(1) =~= ps.skip(1).take(i));
        assert(ps.take(i).skip(1) =~= ps.skip(1).take(i - 1));
        assert(ps.take(i + 1)[0] == ps[0]);
        assert(ps.take(i)[0] == ps[0]);
        assert(ps.skip(1)[i - 1] == ps[i]);
        if i == 1 {
            assert(ps.take(2).len() == 2);
            assert(join_nl(ps.take(2)) =~= ps[0] + seq![0x0au8] + join_nl(ps.skip(1).take(1)));
            assert(join_nl(ps.skip(1).take(1)) == ps.skip(1)[0]);
            assert(join_nl(ps.take(1)) == ps[0]);
            assert(join_nl(ps.take(2)) =~= join_nl(ps.take(1)) + seq![0x0au8] + ps[1]);
        } else {
            assert(join_nl(ps.take(i + 1)) =~= ps[0] + seq![0x0au8] + join_nl(
                ps.take(i + 1).skip(1),
            ));
            assert(join_nl(ps.take(i)) =~= ps[0] + seq![0x0au8] + join_nl(ps.take(i).skip(1)));
            assert(join_nl(ps.take(i + 1)) =~= join_nl(ps.take(i)) + seq![0x0au8] + ps[i]);
        }
    }
}

/// Joins the paths with single newlines and no trailing newline: the bytes
/// stored as entry 0.
pub fn manifest_bytes_from_paths(paths: &Vec<Vec<u8>>) -> (r: Vec<u8>)
    ensures
        r@ == join_nl(Seq::new(paths@.len(), |i: int| paths@[i]@)),
{
    let ghost ps = Seq::new(paths@.len(), |i: int| paths@[i]@);
    let n = paths.len();
    let mut r: Vec<u8> = Vec::new();
    let mut i: usize = 0;
    proof {
        assert(join_nl(ps.take(0)) =~= r@);
    }
    while i < n
        invariant
            0 <= i <= n,
            n == ps.len(),
            n == paths@.len(),
            forall|j: int| 0 <= j < n ==> ps[j] == (#[trigger] paths@[j])@,
            r@ == join_nl(ps.take(i as int)),
        decreases n - i,
    {
        proof {
            lemma_join_nl_snoc(ps, i as int);
        }
        if i > 0 {
            r.push(0x0a);
        }
        crate::blocks::append_bytes(&mut r, paths[i].as_slice());
        proof {
            if i == 0 {
                assert(r@ =~= join_nl(ps.take(1)));
            } else {
                assert(r@ =~= join_nl(ps.take(i + 1)));
            }
        }
        i = i + 1;
    }
    proof {
        assert(ps.take(n as int) =~= ps);
    }
    r
}

/// The index of the first file in `files` from position `i` on whose path
/// is `p`, or `-1` when there is none.
pub open spec fn find_path(files: Seq<crate::FileInputModel>, p: Seq<u8>, i: int) -> int
    decreases files.len() - i,
{
    if i < 0 || i >= files.len() {
        -1
    } else if files[i].path == p {
        i
    } else {
        find_path(files, p, i + 1)
    }
}

/// The result of matching manifest lines against discovered files.
pub ghost struct MatchResult {
    /// The matched files, in manifest order.
    pub ordered: Seq<crate::FileInputModel>,
    /// Manifest lines for which no file was found, in manifest order.
    pub missing: Seq<Seq<u8>>,
    /// Files no manifest line claimed.
    pub leftover: Seq<crate::FileInputModel>,
}

/// Matches the manifest lines against the files, in order: each line takes
/// the first remaining file with that path, or is recorded as missing.
pub open spec fn spec_match_lines(
    lines: Seq<Seq<u8>>,
    files: Seq<crate::FileInputModel>,
    ordered: Seq<crate::FileInputModel>,
    missing: Seq<Seq<u8>>,
) -> MatchResult
    decreases lines.len(),
{
    if lines.len() == 0 {
        MatchResult { ordered, missing, leftover: files }
    } else {
        let j = find_path(files, lines[0], 0);
        if j >= 0 {
            spec_match_lines(lines.skip(1), files.remove(j), ordered + seq![files[j]], missing)
        } else {
            spec_match_lines(lines.skip(1), files, ordered, missing + seq![lines[0]])
        }
    }
}

/// Matching the manifest lines of blob `t` against `files` from the start.
pub open spec fn spec_match(t: Seq<u8>, files: Seq<crate::FileInputModel>) -> MatchResult {
    spec_match_lines(spec_manifest_lines(t), files, seq![], seq![])
}

/// Finds the first file whose path equals `p`.
fn find_path_exec(files: &Vec<crate::FileInput>, p: &[u8]) -> (r: Option<usize>)
    ensures
        match r {
            Some(j) => j < files@.len() && find_path(crate::file_views(files@), p@, 0) == j as int,
            None => find_path(crate::file_views(files@), p@, 0) == -1,
        },
{
    let ghost fv = crate::file_views(files@);
    let n = files.len();
    let mut j: usize = 0;
    while j < n
        invariant
            0 <= j <= n,
            n == files@.len(),
            fv == crate::file_views(files@),
            find_path(fv, p@, 0) == find_path(fv, p@, j as int),
        decreases n - j,
    {
        if crate::wire::bytes_eq(files[j].path.as_slice(), p) {
            assert(fv[j as int].path == p@);
            return Some(j);
        }
        assert(fv[j as int].path != p@);
        j = j + 1;
    }
    None
}

/// Matches the parsed manifest lines against the files: returns the files
/// in manifest order, the lines that matched nothing, and the files no
/// line claimed.
fn match_manifest(lines: &Vec<Vec<u8>>, files: Vec<crate::FileInput>) -> (r: (
    Vec<crate::FileInput>,
    Vec<Vec<u8>>,
    Vec<crate::FileInput>,
))
    ensures
        ({
            let m = spec_match_lines(
                Seq::new(lines@.len(), |i: int| lines@[i]@),
                crate::file_views(files@),
                seq![],
                seq![],
            );
            &&& crate::file_views(r.0@) == m.ordered
            &&& Seq::new(r.1@.len(), |i: int| r.1@[i]@) == m.missing
            &&& crate::file_views(r.2@) == m.leftover
        }),
{
    let ghost ls = Seq::new(lines@.len(), |i: int| lines@[i]@);
    let ghost m = spec_match_lines(ls, crate::file_views(files@), seq![], seq![]);
    let mut rem = files;
    let mut ordered: Vec<crate::FileInput> = Vec::new();
    let mut missing: Vec<Vec<u8>> = Vec::new();
    let n = lines.len();
    let mut i: usize = 0;
    proof {
        assert(ls.skip(0) =~= ls);
        assert(crate::file_views(ordered@) =~= Seq::<crate::FileInputModel>::empty());
        assert(Seq::new(missing@.len(), |k: int| missing@[k]@)
            =~= Seq::<Seq<u8>>::empty());
    }
    while i < n
        invariant
            0 <= i <= n,
            n == ls.len(),
            n == lines@.len(),
            forall|k: int| 0 <= k < n ==> (#[trigger] lines@[k])@ == ls[k],
            m == spec_match_lines(
                ls.skip(i as int),
                crate::file_views(rem@),
                crate::file_views(ordered@),
                Seq::new(missing@.len(), |k: int| missing@[k]@),
            ),
        decreases n - i,
    {
        let ghost pre_rem = crate::file_views(rem@);
        let ghost pre_ord = crate::file_views(ordered@);
        let ghost pre_mis = Seq::new(missing@.len(), |k: int| missing@[k]@);
        proof {
            assert(ls.skip(i as int)[0] == ls[i as int]);
            assert(ls.skip(i as int).skip(1) =~= ls.skip(i + 1));
        }
        match find_path_exec(&rem, lines[i].as_slice()) {
            Some(j) => {
                let ghost fj = pre_rem[j as int];
                let f = rem.remove(j);
                proof {
                    assert(f@ == fj);
                    assert(crate::file_views(rem@) =~= pre_rem.remove(j as int));
                }
                ordered.push(f);
                proof {
                    assert(crate::file_views(ordered@) =~= pre_ord + seq![fj]);
                }
            },
            None => {
                let line = lines[i].clone();
                proof {
                    assert(line@ == ls[i as int]);
                }
                missing.push(line);
                proof {
                    assert(Seq::new(missing@.len(), |k: int| missing@[k]@) =~= pre_mis + seq![
                        ls[i as int],
                    ]);
                }
            },
        }
        i = i + 1;
    }
    proof {
        assert(ls.skip(n as int).len() == 0);
    }
    (ordered, missing, rem)
}

/// The index of the least name hash among `fs[best]` and `fs[j..]`,
/// keeping the earliest index on ties.
pub open spec fn spec_first_min(fs: Seq<crate::FileInputModel>, j: int, best: int) -> int
    decreases fs.len() - j,
{
    if j < 0 || j >= fs.len() {
        best
    } else if !crate::hash::bytes_le(
        crate::hash::name_hash_of(fs[best].path),
        crate::hash::name_hash_of(fs[j].path),
    ) {
        spec_first_min(fs, j + 1, j)
    } else {
        spec_first_min(fs, j + 1, best)
    }
}

/// The result of `spec_first_min` stays inside the list.
pub proof fn lemma_first_min_in_range(fs: Seq<crate::FileInputModel>, j: int, best: int)
    requires
        0 <= best < fs.len(),
        0 <= j,
    ensures
        0 <= spec_first_min(fs, j, best) < fs.len(),
    decreases fs.len() - j,
{
    if !(j < 0 || j >= fs.len()) {
        if !crate::hash::bytes_le(
            crate::hash::name_hash_of(fs[best].path),
            crate::hash::name_hash_of(fs[j].path),
        ) {
            lemma_first_min_in_range(fs, j + 1, j);
        } else {
            lemma_first_min_in_range(fs, j + 1, best);
        }
    }
}

/// The files sorted by ascending name hash: repeatedly moves the first
/// least-hash file to the front of the remainder.
pub open spec fn spec_sort_files(fs: Seq<crate::FileInputModel>) -> Seq<crate::FileInputModel>
    decreases fs.len(),
{
    if fs.len() == 0 {
        seq![]
    } else {
        let b = spec_first_min(fs, 1, 0);
        if 0 <= b < fs.len() {
            seq![fs[b]] + spec_sort_files(fs.remove(b))
        } else {
            fs
        }
    }
}

/// True when `fs` is ordered by ascending name hash of the paths.
pub open spec fn sorted_by_hash(fs: Seq<crate::FileInputModel>) -> bool {
    forall|i: int, j: int|
        0 <= i <= j < fs.len() ==> crate::hash::bytes_le(
            crate::hash::name_hash_of(#[trigger] fs[i].path),
            crate::hash::name_hash_of(#[trigger] fs[j].path),
        )
}

/// Sorts the files by ascending name hash of their internal paths,
/// keeping the earlier of two files whose hashes are equal first.
fn sort_files_by_hash(files: Vec<crate::FileInput>) -> (r: Vec<crate::FileInput>)
    ensures
        crate::file_views(r@) == spec_sort_files(crate::file_views(files@)),
        crate::file_views(r@).to_multiset() == crate::file_views(files@).to_multiset(),
        sorted_by_hash(crate::file_views(r@)),
{
    broadcast use vstd::seq_lib::group_to_multiset_ensures;
    broadcast use vstd::multiset::group_multiset_axioms;

    let ghost orig = crate::file_views(files@).to_multiset();
    let ghost origs = crate::file_views(files@);
    let mut rem = files;
    let mut out: Vec<crate::FileInput> = Vec::new();
    proof {
        assert(crate::file_views(out@) =~= Seq::<crate::FileInputModel>::empty());
        assert(crate::file_views(out@).to_multiset().add(
            crate::file_views(rem@).to_multiset(),
        ) =~= orig);
        assert(crate::file_views(out@) + spec_sort_files(crate::file_views(rem@))
            =~= spec_sort_files(origs));
    }
    while rem.len() > 0
        invariant
            crate::file_views(out@) + spec_sort_files(crate::file_views(rem@)) == spec_sort_files(
                origs,
            ),
            crate::file_views(out@).to_multiset().add(crate::file_views(rem@).to_multiset())
                == orig,
            sorted_by_hash(crate::file_views(out@)),
            forall|i: int, j: int|
                0 <= i < crate::file_views(out@).len() && 0 <= j < crate::file_views(rem@).len()
                    ==> crate::hash::bytes_le(
                    crate::hash::name_hash_of(#[trigger] crate::file_views(out@)[i].path),
                    crate::hash::name_hash_of(#[trigger] crate::file_views(rem@)[j].path),
                ),
        decreases rem@.len(),
    {
        let ghost rv = crate::file_views(rem@);
        let n = rem.len();
        let mut best: usize = 0;
        let mut best_hash = crate::hash::calculate_md5(rem[0].path.as_slice());
        proof {
            crate::hash::lemma_bytes_le_refl(crate::hash::name_hash_of(rv[0].path));
        }
        let mut j: usize = 1;
        while j < n
            invariant
                0 <= best < j <= n,
                n == rem@.len(),
                rv == crate::file_views(rem@),
                best_hash@ == crate::hash::name_hash_of(rv[best as int].path),
                spec_first_min(rv, 1, 0) == spec_first_min(rv, j as int, best as int),
                forall|k: int|
                    0 <= k < j ==> crate::hash::bytes_le(
                        crate::hash::name_hash_of(rv[best as int].path),
                        crate::hash::name_hash_of(#[trigger] rv[k].path),
                    ),
            decreases n - j,
        {
            let h = crate::hash::calculate_md5(rem[j].path.as_slice());
            if !crate::hash::bytes_le_exec(best_hash.as_slice(), h.as_slice()) {
                proof {
                    crate::hash::lemma_bytes_le_total(
                        crate::hash::name_hash_of(rv[best as int].path),
                        crate::hash::name_hash_of(rv[j as int].path),
                    );
                    assert forall|k: int| 0 <= k < j + 1 implies crate::hash::bytes_le(
                        crate::hash::name_hash_of(rv[j as int].path),
                        crate::hash::name_hash_of(#[trigger] rv[k].path),
                    ) by {
                        if k < j {
                            crate::hash::lemma_bytes_le_trans(
                                crate::hash::name_hash_of(rv[j as int].path),
                                crate::hash::name_hash_of(rv[best as int].path),
                                crate::hash::name_hash_of(rv[k].path),
                            );
                        } else {
                            crate::hash::lemma_bytes_le_refl(
                                crate::hash::name_hash_of(rv[j as int].path),
                            );
                        }
                    }
                }
                best = j;
                best_hash = h;
            } else {
                proof {
                    assert forall|k: int| 0 <= k < j + 1 implies crate::hash::bytes_le(
                        crate::hash::name_hash_of(rv[best as int].path),
                        crate::hash::name_hash_of(#[trigger] rv[k].path),
                    ) by {}
                }
            }
            j = j + 1;
        }
        let ghost chosen = rv[best as int];
        proof {
            assert(spec_first_min(rv, 1, 0) == best as int);
        }
        let f = rem.remove(best);
        proof {
            assert(f@ == chosen);
            assert(crate::file_views(rem@) =~= rv.remove(best as int));
        }
        let ghost pre_out = crate::file_views(out@);
        out.push(f);
        proof {
            broadcast use vstd::seq_lib::group_to_multiset_ensures;
            broadcast use vstd::multiset::group_multiset_axioms;

            assert(crate::file_views(out@) =~= pre_out.push(chosen));
            assert(spec_sort_files(rv) == seq![chosen] + spec_sort_files(rv.remove(best as int)));
            assert(pre_out + spec_sort_files(rv) =~= crate::file_views(out@) + spec_sort_files(
                crate::file_views(rem@),
            ));
            assert(rv.contains(chosen)) by {
                assert(rv[best as int] == chosen);
            }
            assert(rv.to_multiset().count(chosen) > 0);
            assert(crate::file_views(out@).to_multiset().add(
                crate::file_views(rem@).to_multiset(),
            ) =~= orig);
            assert forall|i: int, j2: int|
                0 <= i <= j2 < crate::file_views(out@).len() implies crate::hash::bytes_le(
                crate::hash::name_hash_of(#[trigger] crate::file_views(out@)[i].path),
                crate::hash::name_hash_of(#[trigger] crate::file_views(out@)[j2].path),
            ) by {
                let ov = crate::file_views(out@);
                if j2 < ov.len() - 1 {
                    assert(pre_out[i] == ov[i] && pre_out[j2] == ov[j2]);
                } else if i < ov.len() - 1 {
                    assert(pre_out[i] == ov[i]);
                    assert(rv[best as int] == ov[j2]);
                } else {
                    crate::hash::lemma_bytes_le_total(
                        crate::hash::name_hash_of(ov[i].path),
                        crate::hash::name_hash_of(ov[i].path),
                    );
                }
            }
        }
    }
    proof {
        assert(crate::file_views(rem@).len() == 0);
        assert(spec_sort_files(crate::file_views(rem@)) =~= Seq::<
            crate::FileInputModel,
        >::empty());
        assert(crate::file_views(out@) =~= spec_sort_files(origs));
        broadcast use vstd::seq_lib::group_to_multiset_ensures;
        broadcast use vstd::multiset::group_multiset_axioms;

        assert(crate::file_views(rem@).to_multiset() =~= vstd::multiset::Multiset::<
            crate::FileInputModel,
        >::empty());
        assert(crate::file_views(out@).to_multiset() =~= orig);
    }
    out
}

/// True when an on-disk manifest decides the order: a blob is present, it
/// parses to at least one path, every path matches a discovered file and no
/// discovered file is left unclaimed.
pub open spec fn manifest_decides(blob: Option<Seq<u8>>, files: Seq<crate::FileInputModel>) -> bool {
    &&& blob is Some
    &&& spec_manifest_lines(blob->Some_0).len() > 0
    &&& spec_match(blob->Some_0, files).missing.len() == 0
    &&& spec_match(blob->Some_0, files).leftover.len() == 0
}

/// True when the manifest blob names files that were not discovered.
pub open spec fn manifest_missing(blob: Option<Seq<u8>>, files: Seq<crate::FileInputModel>) -> bool {
    &&& blob is Some
    &&& spec_manifest_lines(blob->Some_0).len() > 0
    &&& spec_match(blob->Some_0, files).missing.len() > 0
}

/// The file order a pack run uses: the manifest's order when it decides;
/// otherwise the hash-sorted files, seeded from the matched-then-leftover
/// order when an incomplete manifest was present, and from the given order
/// when none was.
pub open spec fn spec_resolved_files(blob: Option<Seq<u8>>, fv: Seq<crate::FileInputModel>) -> Seq<
    crate::FileInputModel,
> {
    if blob is Some && spec_manifest_lines(blob->Some_0).len() > 0 {
        let m = spec_match(blob->Some_0, fv);
        if m.missing.len() == 0 && m.leftover.len() == 0 {
            m.ordered
        } else {
            spec_sort_files(m.ordered + m.leftover)
        }
    } else {
        spec_sort_files(fv)
    }
}

/// The manifest bytes a pack run stores as entry 0: the normalized lines
/// when the manifest decides, else the resolved paths joined by newlines.
pub open spec fn spec_resolved_manifest(
    blob: Option<Seq<u8>>,
    fv: Seq<crate::FileInputModel>,
) -> Seq<u8> {
    if manifest_decides(blob, fv) {
        join_nl(spec_manifest_lines(blob->Some_0))
    } else {
        let rv = spec_resolved_files(blob, fv);
        join_nl(Seq::new(rv.len(), |i: int| rv[i].path))
    }
}

/// Decides the file order and the manifest bytes of entry 0. When an
/// on-disk manifest lists every discovered file exactly and nothing else,
/// its order wins and its normalized lines become the manifest bytes; when
/// it names files that do not exist, the pack fails; otherwise the files
/// are ordered by ascending name hash and the manifest is generated from
/// their paths.
pub fn resolve_file_order(files: Vec<crate::FileInput>, manifest_blob: Option<Vec<u8>>) -> (r:
    Result<(Vec<crate::FileInput>, Vec<u8>), crate::PsarcError>)
    ensures
        ({
            let fv = crate::file_views(files@);
            let blob = match manifest_blob {
                Some(b) => Some(b@),
                None => None,
            };
            match r {
                Ok((ordered, mbytes)) => {
                    let ov = crate::file_views(ordered@);
                    &&& !manifest_missing(blob, fv)
                    &&& ov == spec_resolved_files(blob, fv)
                    &&& mbytes@ == spec_resolved_manifest(blob, fv)
                    &&& (!manifest_decides(blob, fv) ==> ov.to_multiset() == fv.to_multiset()
                        && sorted_by_hash(ov))
                },
                Err(e) => {
                    &&& e matches crate::PsarcError::ManifestReferenceMissing(miss)
                    &&& manifest_missing(blob, fv)
                    &&& Seq::new(miss@.len(), |i: int| miss@[i]@) == spec_match(
                        blob->Some_0,
                        fv,
                    ).missing
                },
            }
        }),
{
    let ghost fv = crate::file_views(files@);
    match manifest_blob {
        Some(blob) => {
            let lines = normalize_manifest_lines(blob.as_slice());
            proof {
                assert(Seq::new(lines@.len(), |i: int| lines@[i]@) =~= spec_manifest_lines(
                    blob@,
                ));
            }
            if lines.len() > 0 {
                let (ordered, missing, leftover) = match_manifest(&lines, files);
                if missing.len() == 0 && leftover.len() == 0 {
                    proof {
                        assert(crate::file_views(leftover@).len() == 0);
                        assert(Seq::new(missing@.len(), |i: int| missing@[i]@).len() == 0);
                    }
                    let mbytes = manifest_bytes_from_paths(&lines);
                    return Ok((ordered, mbytes));
                }
                if missing.len() > 0 {
                    proof {
                        assert(Seq::new(missing@.len(), |i: int| missing@[i]@).len() > 0);
                    }
                    return Err(crate::PsarcError::ManifestReferenceMissing(missing));
                }
                // Extra files beyond the manifest: fall through and regenerate.
                let sorted = sort_files_by_hash(merge_files(ordered, leftover));
                let ghost sv = crate::file_views(sorted@);
                let mut paths: Vec<Vec<u8>> = Vec::new();
                let mut i: usize = 0;
                let n = sorted.len();
                while i < n
                    invariant
                        0 <= i <= n,
                        n == sorted@.len(),
                        sv == crate::file_views(sorted@),
                        paths@.len() == i,
                        forall|k: int| 0 <= k < i ==> (#[trigger] paths@[k])@ == sv[k].path,
                    decreases n - i,
                {
                    paths.push(sorted[i].path.clone());
                    i = i + 1;
                }
                let mbytes = manifest_bytes_from_paths(&paths);
                proof {
                    assert(Seq::new(paths@.len(), |k: int| paths@[k]@) =~= Seq::new(
                        sv.len(),
                        |k: int| sv[k].path,
                    ));
                    broadcast use vstd::seq_lib::group_to_multiset_ensures;

                    let ls = spec_manifest_lines(blob@);
                    let m = spec_match_lines(ls, fv, seq![], seq![]);
                    lemma_match_multiset(ls, fv, seq![], seq![]);
                    vstd::seq_lib::lemma_multiset_commutative(m.ordered, m.leftover);
                    assert(Seq::<crate::FileInputModel>::empty().to_multiset() =~= vstd::multiset::Multiset::empty());
                    assert(Seq::<crate::FileInputModel>::empty().to_multiset().add(fv.to_multiset())
                        =~= fv.to_multiset());
                    assert(sv.to_multiset() == fv.to_multiset());
                }
                return Ok((sorted, mbytes));
            }
            // An empty manifest parses to no paths: fall back to hash order.
            let sorted = sort_files_by_hash(files);
            let r = finish_sorted(sorted);
            Ok(r)
        },
        None => {
            let sorted = sort_files_by_hash(files);
            let r = finish_sorted(sorted);
            Ok(r)
        },
    }
}

/// Appends all of `more` to `files`.
fn merge_files(files: Vec<crate::FileInput>, more: Vec<crate::FileInput>) -> (r: Vec<
    crate::FileInput,
>)
    ensures
        crate::file_views(r@) == crate::file_views(files@) + crate::file_views(more@),
{
    let mut files = files;
    let mut more = more;
    let ghost a = crate::file_views(files@);
    let ghost b = crate::file_views(more@);
    files.append(&mut more);
    proof {
        assert(crate::file_views(files@) =~= a + b);
    }
    files
}

/// The matched, missing and leftover parts together hold exactly the input
/// files and lines: in particular ordered + leftover is a permutation of
/// the files.
pub proof fn lemma_match_multiset(
    lines: Seq<Seq<u8>>,
    files: Seq<crate::FileInputModel>,
    ordered: Seq<crate::FileInputModel>,
    missing: Seq<Seq<u8>>,
)
    ensures
        ({
            let m = spec_match_lines(lines, files, ordered, missing);
            m.ordered.to_multiset().add(m.leftover.to_multiset()) == ordered.to_multiset().add(
                files.to_multiset(),
            )
        }),
    decreases lines.len(),
{
    broadcast use vstd::seq_lib::group_to_multiset_ensures;
    broadcast use vstd::multiset::group_multiset_axioms;

    if lines.len() > 0 {
        let j = find_path(files, lines[0], 0);
        if j >= 0 {
            lemma_find_path_in_range(files, lines[0], 0);
            lemma_match_multiset(lines.skip(1), files.remove(j), ordered + seq![files[j]], missing);
            assert((ordered + seq![files[j]]).to_multiset() =~= ordered.to_multiset().insert(
                files[j],
            )) by {
                assert(ordered + seq![files[j]] =~= ordered.push(files[j]));
            }
            assert(files.remove(j).to_multiset() =~= files.to_multiset().remove(files[j]));
            assert(ordered.to_multiset().insert(files[j]).add(
                files.to_multiset().remove(files[j]),
            ) =~= ordered.to_multiset().add(files.to_multiset())) by {
                assert(files.to_multiset().count(files[j]) > 0);
            }
        } else {
            lemma_match_multiset(lines.skip(1), files, ordered, missing + seq![lines[0]]);
        }
    }
}

/// A found index lies inside the file list.
pub proof fn lemma_find_path_in_range(files: Seq<crate::FileInputModel>, p: Seq<u8>, i: int)
    requires
        0 <= i,
    ensures
        find_path(files, p, i) == -1 || i <= find_path(files, p, i) < files.len(),
        find_path(files, p, i) >= 0 ==> files[find_path(files, p, i)].path == p,
    decreases files.len() - i,
{
    if !(i < 0 || i >= files.len()) && !(files[i].path == p) {
        lemma_find_path_in_range(files, p, i + 1);
    }
}

/// Wraps up the hash-sorted order: generates the manifest bytes from the
/// sorted paths.
fn finish_sorted(sorted: Vec<crate::FileInput>) -> (r: (Vec<crate::FileInput>, Vec<u8>))
    ensures
        r.0 == sorted,
        r.1@ == join_nl(
            Seq::new(
                crate::file_views(sorted@).len(),
                |i: int| crate::file_views(sorted@)[i].path,
            ),
        ),
{
    let ghost sv = crate::file_views(sorted@);
    let mut paths: Vec<Vec<u8>> = Vec::new();
    let mut i: usize = 0;
    let n = sorted.len();
    while i < n
        invariant
            0 <= i <= n,
            n == sorted@.len(),
            sv == crate::file_views(sorted@),
            paths@.len() == i,
            forall|k: int| 0 <= k < i ==> (#[trigger] paths@[k])@ == sv[k].path,
        decreases n - i,
    {
        paths.push(sorted[i].path.clone());
        i = i + 1;
    }
    let mbytes = manifest_bytes_from_paths(&paths);
    proof {
        assert(Seq::new(paths@.len(), |k: int| paths@[k]@) =~= Seq::new(
            sv.len(),
            |k: int| sv[k].path,
        ));
    }
    (sorted, mbytes)
}


/// Matching never loses a missing line, and when nothing new goes
/// missing, every line claims a file with exactly that path, in order.
pub proof fn lemma_match_paths(
    lines: Seq<Seq<u8>>,
    files: Seq<crate::FileInputModel>,
    ordered: Seq<crate::FileInputModel>,
    missing: Seq<Seq<u8>>,
)
    ensures
        ({
            let m = spec_match_lines(lines, files, ordered, missing);
            &&& m.missing.len() >= missing.len()
            &&& (m.missing.len() == missing.len() ==> {
                &&& m.ordered.len() == ordered.len() + lines.len()
                &&& (forall|i: int|
                    0 <= i < lines.len() ==> m.ordered[ordered.len() + i].path
                        == #[trigger] lines[i])
                &&& (forall|i: int|
                    0 <= i < ordered.len() ==> m.ordered[i] == #[trigger] ordered[i])
            })
        }),
    decreases lines.len(),
{
    if lines.len() > 0 {
        let j = find_path(files, lines[0], 0);
        if j >= 0 {
            lemma_find_path_in_range(files, lines[0], 0);
            let ordered2 = ordered + seq![files[j]];
            lemma_match_paths(lines.skip(1), files.remove(j), ordered2, missing);
            let m = spec_match_lines(lines, files, ordered, missing);
            if m.missing.len() == missing.len() {
                assert(forall|i: int|
                    0 <= i < lines.skip(1).len() ==> #[trigger] lines.skip(1)[i] == lines[i + 1]);
                assert(ordered2[ordered.len() as int].path == lines[0]);
                assert(forall|i: int|
                    0 <= i < ordered.len() ==> ordered2[i] == #[trigger] ordered[i]);
                assert forall|i: int| 0 <= i < lines.len() implies m.ordered[ordered.len()
                    + i].path == #[trigger] lines[i] by {
                    if i == 0 {
                        assert(m.ordered[ordered.len() as int] == ordered2[ordered.len() as int]);
                    } else {
                        assert(m.ordered[ordered2.len() + (i - 1)].path == lines.skip(1)[i - 1]);
                    }
                }
            }
        } else {
            lemma_match_paths(lines.skip(1), files, ordered, missing + seq![lines[0]]);
        }
    }
}

/// When the on-disk manifest decides the order, the resolved files carry
/// exactly the manifest's paths, line for line: the TOC order equals the
/// manifest order.
pub proof fn lemma_manifest_order_wins(blob: Seq<u8>, fv: Seq<crate::FileInputModel>)
    requires
        manifest_decides(Some(blob), fv),
    ensures
        ({
            let lines = spec_manifest_lines(blob);
            let rv = spec_resolved_files(Some(blob), fv);
            &&& rv.len() == lines.len()
            &&& forall|i: int| 0 <= i < lines.len() ==> rv[i].path == #[trigger] lines[i]
        }),
{
    let lines = spec_manifest_lines(blob);
    lemma_match_paths(lines, fv, seq![], seq![]);
}

/// The manifest bytes a pack stores are always the resolved paths joined
/// by newlines: with a deciding manifest because each line names its
/// file's path, and in the hash-sorted fallback by construction.
pub proof fn lemma_resolved_manifest_is_paths(
    blob: Option<Seq<u8>>,
    fv: Seq<crate::FileInputModel>,
)
    ensures
        ({
            let rv = spec_resolved_files(blob, fv);
            spec_resolved_manifest(blob, fv) == join_nl(Seq::new(rv.len(), |i: int| rv[i].path))
        }),
{
    let rv = spec_resolved_files(blob, fv);
    if manifest_decides(blob, fv) {
        lemma_manifest_order_wins(blob->Some_0, fv);
        assert(spec_manifest_lines(blob->Some_0) =~= Seq::new(rv.len(), |i: int| rv[i].path));
    }
}


} // verus!

//! Which files a run moves, and where: a file goes to the subdirectory named
//! after its extension (or `no_extension`) inside the organized directory,
//! unless it is the log itself or lies in a directory that an earlier run
//! created.

use vstd::prelude::*;
use crate::paths::{
    extension_of, file_name, file_name_of, is_under, join, join_spec, last_index_of,
    lemma_last_index_of, lemma_last_index_of_append, split_extension, under,
};
use crate::naming::candidate_of;

verus! {

/// The name of the bucket for files without an extension.
pub open spec fn no_extension() -> Seq<char> {
    seq!['n', 'o', '_', 'e', 'x', 't', 'e', 'n', 's', 'i', 'o', 'n']
}

/// The name of the log file kept in the organized directory.
pub open spec fn log_file_name() -> Seq<char> {
    seq![
        '.', 'f', 'i', 'l', 'e', '_', 'o', 'r', 'g', 'a', 'n', 'i', 'z', 'e', 'r', '_', 'l', 'o',
        'g'
    ]
}

/// The bucket of a file: its extension when it has a non-empty one, else
/// `no_extension`.
pub open spec fn bucket_of(p: Seq<char>) -> Seq<char> {
    match extension_of(file_name_of(p)) {
        Some(e) => if e.len() > 0 {
            e
        } else {
            no_extension()
        },
        None => no_extension(),
    }
}

/// The directory a file of `base` is sorted into.
pub open spec fn target_dir_of(base: Seq<char>, p: Seq<char>) -> Seq<char> {
    join_spec(base, bucket_of(p))
}

/// The place a file of `base` is sorted to, before any collision.
pub open spec fn target_of(base: Seq<char>, p: Seq<char>) -> Seq<char> {
    join_spec(target_dir_of(base, p), file_name_of(p))
}

/// A run moves file `p` unless it is the log file or lies in one of
/// `created`.
pub open spec fn selected(p: Seq<char>, created: Seq<Seq<char>>, log_file: Seq<char>) -> bool {
    p != log_file && !(exists|i: int| 0 <= i < created.len() && is_under(p, #[trigger] created[i]))
}

/// The files of `ps` that a run moves, in their order.
pub open spec fn select_files(ps: Seq<Seq<char>>, created: Seq<Seq<char>>, log_file: Seq<char>) -> Seq<
    Seq<char>,
>
    decreases ps.len(),
{
    if ps.len() == 0 {
        seq![]
    } else if selected(ps.last(), created, log_file) {
        select_files(ps.drop_last(), created, log_file).push(ps.last())
    } else {
        select_files(ps.drop_last(), created, log_file)
    }
}

/// A file that a run has sorted is left alone by the next run: wherever it
/// landed in its bucket directory, at the desired path or at a numbered
/// one, it lies under that directory, which the run recorded as created.
pub proof fn lemma_sorted_file_not_selected(
    base: Seq<char>,
    p: Seq<char>,
    k: nat,
    created: Seq<Seq<char>>,
    log_file: Seq<char>,
)
    requires
        created.contains(target_dir_of(base, p)),
    ensures
        !selected(candidate_of(target_of(base, p), k), created, log_file),
{
    let d = target_dir_of(base, p);
    let name = file_name_of(p);
    let t = target_of(base, p);
    let q = candidate_of(t, k);
    lemma_last_index_of(p, '/');
    assert(forall|j: int| 0 <= j < name.len() ==> name[j] != '/');
    assert(d.len() > 0);
    let i = choose|i: int| 0 <= i < created.len() && created[i] == d;
    if d.last() == '/' {
        assert(t =~= d + name);
        lemma_last_index_of_append(d, name, '/');
        lemma_last_index_of(d, '/');
        assert(last_index_of(d, '/') == d.len() - 1);
        assert(d.is_prefix_of(q));
    } else {
        assert(t =~= (d + seq!['/']) + name);
        lemma_last_index_of_append(d + seq!['/'], name, '/');
        assert((d + seq!['/']).drop_last() =~= d);
        assert(last_index_of(t, '/') == d.len());
        assert(d.is_prefix_of(q));
        assert(q[d.len() as int] == '/');
    }
    assert(is_under(q, created[i]));
}

/// The path of the log file of `base`.
pub fn log_file_path(base: &str) -> (r: String)
    ensures
        r@ == join_spec(base@, log_file_name()),
{
    proof {
        reveal_strlit(".file_organizer_log");
    }
    assert(".file_organizer_log"@ =~= log_file_name());
    join(base, ".file_organizer_log")
}

/// The bucket of file `p`.
pub fn bucket(p: &str) -> (r: String)
    ensures
        r@ == bucket_of(p@),
        r@.len() > 0,
{
    proof {
        reveal_strlit("no_extension");
    }
    assert("no_extension"@ =~= no_extension());
    let name = file_name(p);
    let (_, ext) = split_extension(name.as_str());
    match ext {
        Some(e) => {
            if e.as_str().unicode_len() > 0 {
                e
            } else {
                String::from_str("no_extension")
            }
        },
        None => String::from_str("no_extension"),
    }
}

/// The directory that file `p` of `base` is sorted into.
pub fn target_directory(base: &str, p: &str) -> (r: String)
    ensures
        r@ == target_dir_of(base@, p@),
{
    let b = bucket(p);
    join(base, b.as_str())
}

/// The place that file `p` of `base` is sorted to, before any collision.
pub fn target_path(base: &str, p: &str) -> (r: String)
    ensures
        r@ == target_of(base@, p@),
{
    let d = target_directory(base, p);
    let name = file_name(p);
    join(d.as_str(), name.as_str())
}

/// Whether a run moves file `p`.
pub fn should_organize(p: &str, created: &Vec<String>, log_file: &str) -> (r: bool)
    ensures
        r == selected(p@, created.deep_view(), log_file@),
{
    let np = p.unicode_len();
    let nl = log_file.unicode_len();
    if np == nl && crate::paths::starts_with(p, log_file) {
        assert(p@ =~= log_file@);
        return false;
    }
    let mut i: usize = 0;
    while i < created.len()
        invariant
            i <= created.len(),
            forall|j: int| 0 <= j < i ==> !is_under(p@, #[trigger] created.deep_view()[j]),
        decreases created.len() - i,
    {
        if under(p, created[i].as_str()) {
            assert(is_under(p@, created.deep_view()[i as int]));
            return false;
        }
        i = i + 1;
    }
    proof {
        if p@ == log_file@ {
            assert(log_file@.is_prefix_of(p@));
        }
    }
    true
}

/// The files of `paths` that a run moves, in their order.
pub fn files_to_organize(paths: &Vec<String>, created: &Vec<String>, log_file: &str) -> (r: Vec<
    String,
>)
    ensures
        r.deep_view() == select_files(paths.deep_view(), created.deep_view(), log_file@),
{
    let ghost ps = paths.deep_view();
    let mut r: Vec<String> = Vec::new();
    let mut i: usize = 0;
    assert(ps.take(0) =~= seq![]);
    while i < paths.len()
        invariant
            ps == paths.deep_view(),
            i <= paths.len(),
            r.deep_view() == select_files(ps.take(i as int), created.deep_view(), log_file@),
        decreases paths.len() - i,
    {
        assert(ps.take(i + 1).drop_last() =~= ps.take(i as int));
        if should_organize(paths[i].as_str(), created, log_file) {
            let ghost r0 = r.deep_view();
            r.push(paths[i].clone());
            assert(r.deep_view() =~= r0.push(ps[i as int]));
        }
        i = i + 1;
    }
    assert(ps.take(i as int) =~= ps);
    r
}

} // verus!

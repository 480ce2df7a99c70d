//! The sync engine's state and decisions.  The engine holds three caches
//! keyed by relative path — the last known fingerprint, the last written or
//! read content, and the last seen remote timestamp — and decides, from
//! plain values, what each event means: download or not, upload with which
//! diff, apply a pushed diff or fall back to a full fetch, which cached paths
//! a folder delete covers.  The driver performs the filesystem and HTTP work
//! and records outcomes back into the engine.
//!
//! The standing invariant: every cached fingerprint is the fingerprint of the
//! cached content under the same path, and the two caches always hold the
//! same paths.

use vstd::prelude::*;

use crate::config::Config;
use crate::diff::{lcs_changes, script_view, spec_apply, spec_collapse, spec_split_lines,
    wf_script, DiffOp};
use crate::fingerprint::{fingerprint_str, spec_fingerprint};
use crate::json::{diff_to_json, spec_diff_json};
use crate::strmap::StrMap;
use crate::strutil::{has_prefix, push_char, str_eq, str_starts_with};
use crate::transport::ApiClient;
use crate::types::{is_file, is_folder, FileItem};
use vstd::string::StringSliceAdditionalSpecFns;
use vstd::utf8::encode_utf8;

verus! {

/// The stateful reconciler of cloud mode.  `local_path` is held without a
/// trailing separator, so relative paths resolve the same way however the
/// root was written.
pub struct SyncEngine {
    pub api: ApiClient,
    pub local_path: String,
    pub local_hashes: StrMap,
    pub local_content_cache: StrMap,
    pub remote_modified: StrMap,
}

/// What a local file change calls for.
pub enum LocalChange {
    /// The content matches the cached fingerprint; nothing to do.
    Unchanged,
    /// Upload the full content, with the prior fingerprint and, when one is
    /// small enough, a diff from the cached prior content.
    Upload { old_hash: Option<String>, diff: Option<Vec<DiffOp>> },
}

/// The content the engine last saw under `path`, empty if none.
pub open spec fn spec_prior_content(e: SyncEngine, path: Seq<char>) -> Seq<char> {
    if e.local_content_cache@.contains_key(path) {
        e.local_content_cache@[path]
    } else {
        Seq::<char>::empty()
    }
}

impl SyncEngine {
    /// The engine's invariant: the caches are well-formed maps over the same
    /// paths, and every cached fingerprint fingerprints the cached content.
    pub open spec fn wf(self) -> bool {
        &&& self.local_hashes.wf()
        &&& self.local_content_cache.wf()
        &&& self.remote_modified.wf()
        &&& self.local_hashes@.dom() == self.local_content_cache@.dom()
        &&& forall|p: Seq<char>|
            self.local_hashes@.contains_key(p) ==> #[trigger] self.local_hashes@[p]
                == spec_fingerprint(self.local_content_cache@[p])
    }

    /// A fresh engine for the configuration: empty caches, the cloud client
    /// addressed from the account fields.
    pub fn new(config: &Config) -> (r: SyncEngine)
        ensures
            r.wf(),
            r.local_hashes@ == Map::<Seq<char>, Seq<char>>::empty(),
            r.local_content_cache@ == Map::<Seq<char>, Seq<char>>::empty(),
            r.remote_modified@ == Map::<Seq<char>, Seq<char>>::empty(),
            r.local_path@ == crate::transport::spec_trim_trailing_slashes(config.local_path@),
            r.api.base_url@ == crate::transport::spec_trim_trailing_slashes(config.api_base@),
            r.api.username@ == config.username@,
            r.api.token@ == config.api_token@,
    {
        let r = SyncEngine {
            api: ApiClient::new(
                config.api_base.as_str(),
                config.username.as_str(),
                config.api_token.as_str(),
            ),
            local_path: crate::transport::trim_trailing_slashes(config.local_path.as_str()),
            local_hashes: StrMap::new(),
            local_content_cache: StrMap::new(),
            remote_modified: StrMap::new(),
        };
        proof {
            assert(r.local_hashes@.dom() =~= r.local_content_cache@.dom());
        }
        r
    }

    /// The fingerprint the remote peer computes for `s`.
    pub fn simple_hash(s: &str) -> (r: String)
        ensures
            r@ == spec_fingerprint(s@),
    {
        fingerprint_str(s)
    }

    /// The remote listing flattened to `(path, modified)` pairs of its
    /// files, depth first.
    pub fn flatten_files(items: &Vec<FileItem>) -> (r: Vec<(String, Option<String>)>)
        ensures
            entry_views(r@) == spec_remote_entries(items@),
        decreases items@,
    {
        let mut out: Vec<(String, Option<String>)> = Vec::new();
        let mut i: usize = 0;
        proof {
            assert(items@.skip(0) =~= items@);
            assert(entry_views(out@) =~= Seq::<(Seq<char>, Option<Seq<char>>)>::empty());
        }
        while i < items.len()
            invariant
                0 <= i <= items@.len(),
                entry_views(out@) + spec_remote_entries(items@.skip(i as int))
                    == spec_remote_entries(items@),
            decreases items@.len() - i,
        {
            proof {
                assert(items@.skip(i as int)[0] == items@[i as int]);
                assert(items@.skip(i as int).drop_first() =~= items@.skip(i + 1));
            }
            let item = &items[i];
            if str_eq(item.file_type.as_str(), "folder") {
                match &item.children {
                    Some(children) => {
                        proof {
                            assert(decreases_to!(items@ => items@[i as int]));
                            assert(decreases_to!(items@[i as int] => items@[i as int].children));
                            assert(decreases_to!(items@[i as int].children => children@));
                        }
                        let mut sub = Self::flatten_files(children);
                        let ghost out0 = out@;
                        let ghost sub0 = sub@;
                        out.append(&mut sub);
                        proof {
                            assert(out@ =~= out0 + sub0);
                            lemma_entry_views_concat(out0, sub0);
                            assert((entry_views(out0) + spec_remote_entries(children@))
                                + spec_remote_entries(items@.skip(i + 1)) =~= entry_views(out0) + (
                            spec_remote_entries(children@) + spec_remote_entries(items@.skip(i
                                + 1))));
                        }
                    },
                    None => {
                        proof {
                            assert(Seq::<(Seq<char>, Option<Seq<char>>)>::empty()
                                + spec_remote_entries(items@.skip(i + 1)) =~= spec_remote_entries(
                                items@.skip(i + 1)));
                        }
                    },
                }
            } else if str_eq(item.file_type.as_str(), "file") {
                let modified: Option<String> = match &item.modified {
                    Some(m) => Some(m.clone()),
                    None => None,
                };
                let ghost out0 = out@;
                out.push((item.path.clone(), modified));
                proof {
                    let e = (items@[i as int].path@, spec_modified_view(items@[i as int].modified));
                    assert(entry_views(out@) =~= entry_views(out0).push(e));
                    assert(entry_views(out0).push(e) + spec_remote_entries(items@.skip(i + 1))
                        =~= entry_views(out0) + (seq![e] + spec_remote_entries(items@.skip(i
                        + 1))));
                }
            } else {
                proof {
                    assert(Seq::<(Seq<char>, Option<Seq<char>>)>::empty() + spec_remote_entries(
                        items@.skip(i + 1)) =~= spec_remote_entries(items@.skip(i + 1)));
                }
            }
            i = i + 1;
        }
        proof {
            assert(items@.skip(items@.len() as int).len() == 0);
            assert(entry_views(out@) + Seq::<(Seq<char>, Option<Seq<char>>)>::empty()
                =~= entry_views(out@));
        }
        out
    }

    /// A remote entry must be downloaded when the file is missing locally,
    /// or the remote timestamp differs from the last one seen.
    pub fn should_download(&self, path: &str, modified: &Option<String>, local_exists: bool) -> (r:
        bool)
        requires
            self.wf(),
        ensures
            r == (!local_exists || (match modified {
                Some(m) => !(self.remote_modified@.contains_key(path@)
                    && self.remote_modified@[path@] == m@),
                None => false,
            })),
    {
        if !local_exists {
            return true;
        }
        match modified {
            Some(m) => {
                match self.remote_modified.get(path) {
                    Some(seen) => !str_eq(seen.as_str(), m.as_str()),
                    None => true,
                }
            },
            None => false,
        }
    }

    /// Records a downloaded file: content and fingerprint cached, the remote
    /// timestamp remembered when the listing carried one.
    pub fn record_download(&mut self, path: &str, content: &str, modified: &Option<String>)
        requires
            old(self).wf(),
        ensures
            final(self).wf(),
            final(self).local_hashes@ == old(self).local_hashes@.insert(path@, spec_fingerprint(
                content@)),
            final(self).local_content_cache@ == old(self).local_content_cache@.insert(path@,
                content@),
            final(self).remote_modified@ == match modified {
                Some(m) => old(self).remote_modified@.insert(path@, m@),
                None => old(self).remote_modified@,
            },
            final(self).local_path == old(self).local_path,
            final(self).api == old(self).api,
    {
        let h = fingerprint_str(content);
        self.local_hashes.insert(path, h);
        self.local_content_cache.insert(path, crate::strutil::str_copy(content));
        match modified {
            Some(m) => self.remote_modified.insert(path, m.clone()),
            None => {},
        }
        proof {
            assert(self.local_hashes@.dom() =~= self.local_content_cache@.dom());
        }
    }

    /// Records a file the engine wrote or read itself: content and
    /// fingerprint cached, the remote timestamp untouched.
    pub fn record_file(&mut self, path: &str, content: &str)
        requires
            old(self).wf(),
        ensures
            final(self).wf(),
            final(self).local_hashes@ == old(self).local_hashes@.insert(path@, spec_fingerprint(
                content@)),
            final(self).local_content_cache@ == old(self).local_content_cache@.insert(path@,
                content@),
            final(self).remote_modified@ == old(self).remote_modified@,
            final(self).local_path == old(self).local_path,
            final(self).api == old(self).api,
    {
        let h = fingerprint_str(content);
        self.local_hashes.insert(path, h);
        self.local_content_cache.insert(path, crate::strutil::str_copy(content));
        proof {
            assert(self.local_hashes@.dom() =~= self.local_content_cache@.dom());
        }
    }

    /// Purges a path from the fingerprint and content caches.
    pub fn forget_file(&mut self, path: &str)
        requires
            old(self).wf(),
        ensures
            final(self).wf(),
            final(self).local_hashes@ == old(self).local_hashes@.remove(path@),
            final(self).local_content_cache@ == old(self).local_content_cache@.remove(path@),
            final(self).remote_modified@ == old(self).remote_modified@,
            final(self).local_path == old(self).local_path,
            final(self).api == old(self).api,
    {
        self.local_hashes.remove(path);
        self.local_content_cache.remove(path);
        proof {
            assert(self.local_hashes@.dom() =~= self.local_content_cache@.dom());
        }
    }

    /// Moves the cache entries of `old_path` to `new_path` after a rename on
    /// disk; with nothing cached under `old_path` the caches stay put.
    pub fn record_rename(&mut self, old_path: &str, new_path: &str)
        requires
            old(self).wf(),
        ensures
            final(self).wf(),
            old(self).local_hashes@.contains_key(old_path@) ==> {
                &&& final(self).local_hashes@ == old(self).local_hashes@.remove(old_path@).insert(
                    new_path@, old(self).local_hashes@[old_path@])
                &&& final(self).local_content_cache@ == old(self).local_content_cache@.remove(
                    old_path@).insert(new_path@, old(self).local_content_cache@[old_path@])
            },
            !old(self).local_hashes@.contains_key(old_path@) ==> {
                &&& final(self).local_hashes@ == old(self).local_hashes@
                &&& final(self).local_content_cache@ == old(self).local_content_cache@
            },
            final(self).remote_modified@ == old(self).remote_modified@,
            final(self).local_path == old(self).local_path,
            final(self).api == old(self).api,
    {
        match self.local_hashes.get(old_path) {
            Some(h) => {
                match self.local_content_cache.get(old_path) {
                    Some(c) => {
                        self.local_hashes.remove(old_path);
                        self.local_hashes.insert(new_path, h);
                        self.local_content_cache.remove(old_path);
                        self.local_content_cache.insert(new_path, c);
                        proof {
                            assert(self.local_hashes@.dom()
                                =~= self.local_content_cache@.dom());
                        }
                    },
                    None => {
                        proof {
                            assert(old(self).local_content_cache@.dom().contains(old_path@));
                        }
                    },
                }
            },
            None => {},
        }
    }

    /// Decides what a changed file calls for: nothing when the fingerprint
    /// is unchanged; otherwise an upload carrying the prior fingerprint and,
    /// when its serialized form stays within 10240 bytes, a diff from the
    /// prior cached content that reproduces the new content exactly.  A
    /// known file's upload goes without a diff only when the generated
    /// script overflowed the cap — witnessed below by a generator-form
    /// script that reproduces the content yet serializes past 10240 bytes.
    pub fn local_change_decision(&self, rel_path: &str, content: &str) -> (r: LocalChange)
        requires
            self.wf(),
        ensures
            r is Unchanged <==> (self.local_hashes@.contains_key(rel_path@)
                && self.local_hashes@[rel_path@] == spec_fingerprint(content@)),
            r matches LocalChange::Upload { old_hash, diff } ==> {
                &&& old_hash is Some <==> self.local_hashes@.contains_key(rel_path@)
                &&& old_hash matches Some(h) ==> h@ == self.local_hashes@[rel_path@]
                &&& diff matches Some(ops) ==> {
                    &&& old_hash is Some
                    &&& wf_script(ops@)
                    &&& spec_apply(spec_prior_content(*self, rel_path@), ops@) == Some(content@)
                    &&& script_view(ops@) == spec_collapse(lcs_changes(spec_split_lines(
                        spec_prior_content(*self, rel_path@)), spec_split_lines(content@)))
                    &&& encode_utf8(spec_diff_json(ops@)).len() <= 10240
                }
                &&& (old_hash is Some && diff is None) ==> exists|alt: Seq<DiffOp>|
                    wf_script(alt) && #[trigger] spec_apply(spec_prior_content(*self, rel_path@),
                        alt) == Some(content@) && script_view(alt) == spec_collapse(lcs_changes(
                        spec_split_lines(spec_prior_content(*self, rel_path@)), spec_split_lines(
                        content@))) && encode_utf8(spec_diff_json(alt)).len() > 10240
            },
    {
        let new_hash = fingerprint_str(content);
        match self.local_hashes.get(rel_path) {
            Some(h) => {
                if str_eq(h.as_str(), new_hash.as_str()) {
                    LocalChange::Unchanged
                } else {
                    let prior = match self.local_content_cache.get(rel_path) {
                        Some(c) => c,
                        None => String::new(),
                    };
                    proof {
                        assert(prior@ == spec_prior_content(*self, rel_path@));
                    }
                    let ops = crate::diff::generate_line_diff(prior.as_str(), content);
                    proof {
                        assert(spec_apply(spec_prior_content(*self, rel_path@), ops@) == Some(
                            content@));
                    }
                    let serialized = diff_to_json(&ops);
                    let sstr = serialized.as_str();
                    let nbytes = sstr.as_bytes().len();
                    proof {
                        assert(nbytes == sstr.spec_bytes().len());
                        assert(sstr.spec_bytes() == encode_utf8(sstr@));
                        assert(sstr@ == spec_diff_json(ops@));
                    }
                    let small = nbytes <= 10240;
                    let ghost gops = ops@;
                    let diff = if small {
                        Some(ops)
                    } else {
                        None
                    };
                    proof {
                        if !small {
                            assert(wf_script(gops) && spec_apply(spec_prior_content(*self,
                                rel_path@), gops) == Some(content@) && script_view(gops)
                                == spec_collapse(lcs_changes(spec_split_lines(spec_prior_content(
                                *self, rel_path@)), spec_split_lines(content@))) && encode_utf8(
                                spec_diff_json(gops)).len() > 10240);
                        }
                    }
                    LocalChange::Upload { old_hash: Some(h), diff }
                }
            },
            None => LocalChange::Upload { old_hash: None, diff: None },
        }
    }

    /// Decides a pushed save: when the event carries a diff whose
    /// precondition matches the cached fingerprint and the diff applies to
    /// the on-disk content, the new content to write; otherwise `None`,
    /// which sends the caller to a full fetch.
    pub fn push_save_apply(
        &self,
        path: &str,
        old_hash: &Option<String>,
        diff: &Option<Vec<DiffOp>>,
        disk_content: &Option<String>,
    ) -> (r: Option<String>)
        requires
            self.wf(),
        ensures
            r is Some <==> {
                &&& old_hash is Some
                &&& diff is Some
                &&& self.local_hashes@.contains_key(path@)
                &&& self.local_hashes@[path@] == old_hash->Some_0@
                &&& disk_content is Some
                &&& spec_apply(disk_content->Some_0@, diff->Some_0@) is Some
            },
            r matches Some(s) ==> Some(s@) == spec_apply(disk_content->Some_0@, diff->Some_0@),
    {
        match (old_hash, diff, disk_content) {
            (Some(oh), Some(ops), Some(disk)) => {
                match self.local_hashes.get(path) {
                    Some(lh) => {
                        if str_eq(lh.as_str(), oh.as_str()) {
                            crate::diff::apply_line_diff(disk.as_str(), ops)
                        } else {
                            None
                        }
                    },
                    None => None,
                }
            },
            _ => None,
        }
    }

    /// The cached paths a folder delete covers: every key under the folder's
    /// slash-terminated prefix, each exactly once.
    pub fn folder_delete_candidates(&self, folder_rel: &str) -> (r: Vec<String>)
        requires
            self.wf(),
        ensures
            forall|j: int|
                0 <= j < r@.len() ==> self.local_hashes@.contains_key(#[trigger] r@[j]@)
                    && has_prefix(r@[j]@, spec_folder_prefix(folder_rel@)),
            forall|k: Seq<char>|
                self.local_hashes@.contains_key(k) && has_prefix(k, spec_folder_prefix(
                    folder_rel@)) ==> exists|j: int| 0 <= j < r@.len() && (#[trigger] r@[j]@) == k,
            forall|j1: int, j2: int|
                0 <= j1 < j2 < r@.len() ==> (#[trigger] r@[j1]@) != (#[trigger] r@[j2]@),
    {
        let mut prefix = crate::strutil::str_copy(folder_rel);
        let ends_slash = crate::strutil::str_ends_with(folder_rel, "/");
        if !ends_slash {
            push_char(&mut prefix, '/');
        }
        proof {
            reveal_strlit("/");
            assert("/"@ =~= seq!['/']);
            if ends_slash {
                assert(folder_rel@.subrange(folder_rel@.len() - 1, folder_rel@.len() as int)[0]
                    == folder_rel@.last());
                assert(folder_rel@.last() == '/');
                assert(prefix@ =~= spec_folder_prefix(folder_rel@));
            } else {
                assert(!(folder_rel@.len() > 0 && folder_rel@.last() == '/')) by {
                    if folder_rel@.len() > 0 && folder_rel@.last() == '/' {
                        assert(folder_rel@.subrange(folder_rel@.len() - 1,
                            folder_rel@.len() as int) =~= "/"@);
                    }
                }
                assert(prefix@ =~= spec_folder_prefix(folder_rel@));
            }
        }
        self.local_hashes.keys_with_prefix(prefix.as_str())
    }

    /// The relative path of an absolute path under the engine's root, with
    /// backslashes normalized to slashes; `None` outside the root.
    pub fn relative_of(&self, full_path: &str) -> (r: Option<String>)
        ensures
            r is Some <==> spec_rel_path(self.local_path@, full_path@) is Some,
            r matches Some(p) ==> Some(p@) == spec_rel_path(self.local_path@, full_path@),
    {
        if str_eq(full_path, self.local_path.as_str()) {
            proof {
                assert(Seq::<char>::empty().map_values(|c: char| slash_of(c))
                    =~= Seq::<char>::empty());
            }
            return Some(String::new());
        }
        let root_len = self.local_path.unicode_len();
        let full_len = full_path.unicode_len();
        let mut with_slash = self.local_path.clone();
        push_char(&mut with_slash, '/');
        let mut with_backslash = self.local_path.clone();
        push_char(&mut with_backslash, '\\');
        let slash_pref = str_starts_with(full_path, with_slash.as_str());
        let bslash_pref = str_starts_with(full_path, with_backslash.as_str());
        if slash_pref || bslash_pref {
            let rest = full_path.substring_char(root_len + 1, full_len);
            let mut out = String::new();
            let rest_len = rest.unicode_len();
            let mut i: usize = 0;
            proof {
                assert(rest@.subrange(0, 0).map_values(|c: char| slash_of(c))
                    =~= Seq::<char>::empty());
            }
            while i < rest_len
                invariant
                    rest_len == rest@.len(),
                    0 <= i <= rest_len,
                    out@ == rest@.subrange(0, i as int).map_values(|c: char| slash_of(c)),
                decreases rest_len - i,
            {
                let c = rest.get_char(i);
                if c == '\\' {
                    push_char(&mut out, '/');
                } else {
                    push_char(&mut out, c);
                }
                proof {
                    assert(out@ =~= rest@.subrange(0, i + 1).map_values(|c: char| slash_of(c)));
                }
                i = i + 1;
            }
            proof {
                assert(rest@.subrange(0, rest@.len() as int) =~= rest@);
                assert(rest@ =~= full_path@.skip(self.local_path@.len() as int + 1));
            }
            Some(out)
        } else {
            None
        }
    }
}

/// A backslash normalized to a slash; any other character unchanged.
pub open spec fn slash_of(c: char) -> char {
    if c == '\\' {
        '/'
    } else {
        c
    }
}

/// The relative path `full` has under `root`: empty for the root itself, the
/// separator-stripped remainder under it, `None` outside.
pub open spec fn spec_rel_path(root: Seq<char>, full: Seq<char>) -> Option<Seq<char>> {
    if full == root {
        Some(Seq::<char>::empty())
    } else if has_prefix(full, root.push('/')) || has_prefix(full, root.push('\\')) {
        Some(full.skip(root.len() as int + 1).map_values(|c: char| slash_of(c)))
    } else {
        None
    }
}

/// A folder's cache prefix: the relative path, slash-terminated.
pub open spec fn spec_folder_prefix(folder_rel: Seq<char>) -> Seq<char> {
    if folder_rel.len() > 0 && folder_rel.last() == '/' {
        folder_rel
    } else {
        folder_rel.push('/')
    }
}

/// The view of one `(path, modified)` pair.
pub open spec fn spec_pair_view(p: (String, Option<String>)) -> (Seq<char>, Option<Seq<char>>) {
    (p.0@, spec_modified_view(p.1))
}

/// The view of an optional timestamp.
pub open spec fn spec_modified_view(m: Option<String>) -> Option<Seq<char>> {
    match m {
        Some(s) => Some(s@),
        None => None,
    }
}

/// The views of a pair list.
pub open spec fn entry_views(ps: Seq<(String, Option<String>)>) -> Seq<
    (Seq<char>, Option<Seq<char>>),
> {
    ps.map_values(|p: (String, Option<String>)| spec_pair_view(p))
}

proof fn lemma_entry_views_concat(a: Seq<(String, Option<String>)>, b: Seq<(String, Option<String>)>)
    ensures
        entry_views(a + b) == entry_views(a) + entry_views(b),
{
    assert(entry_views(a + b) =~= entry_views(a) + entry_views(b));
}

/// The `(path, modified)` pairs of a tree's files, depth first: folders
/// contribute their children, files their path and timestamp, anything else
/// nothing.
pub open spec fn spec_remote_entries(items: Seq<FileItem>) -> Seq<(Seq<char>, Option<Seq<char>>)>
    decreases items,
{
    if items.len() == 0 {
        Seq::<(Seq<char>, Option<Seq<char>>)>::empty()
    } else {
        let head = items[0];
        let head_part = if is_folder(head) {
            match head.children {
                Some(c) => spec_remote_entries(c@),
                None => Seq::<(Seq<char>, Option<Seq<char>>)>::empty(),
            }
        } else if is_file(head) {
            seq![(head.path@, spec_modified_view(head.modified))]
        } else {
            Seq::<(Seq<char>, Option<Seq<char>>)>::empty()
        };
        head_part + spec_remote_entries(items.drop_first())
    }
}

/// The views of a list of owned paths.
pub open spec fn path_views(ps: Seq<String>) -> Seq<Seq<char>> {
    ps.map_values(|p: String| p@)
}

/// The local paths that the remote listing lacks: what full sync uploads,
/// each path at most once.
pub fn upload_candidates(local_paths: &Vec<String>, remote_paths: &Vec<String>) -> (r: Vec<String>)
    ensures
        forall|j: int|
            0 <= j < r@.len() ==> path_views(local_paths@).contains(#[trigger] r@[j]@)
                && !path_views(remote_paths@).contains(r@[j]@),
        forall|i: int|
            0 <= i < local_paths@.len() && !path_views(remote_paths@).contains(
                #[trigger] local_paths@[i]@) ==> path_views(r@).contains(local_paths@[i]@),
        forall|j1: int, j2: int| 0 <= j1 < j2 < r@.len() ==> (#[trigger] r@[j1]@) != (
        #[trigger] r@[j2]@),
{
    let mut out: Vec<String> = Vec::new();
    let mut i: usize = 0;
    while i < local_paths.len()
        invariant
            0 <= i <= local_paths@.len(),
            forall|j: int|
                0 <= j < out@.len() ==> path_views(local_paths@).contains(#[trigger] out@[j]@)
                    && !path_views(remote_paths@).contains(out@[j]@),
            forall|k: int|
                0 <= k < i && !path_views(remote_paths@).contains(#[trigger] local_paths@[k]@)
                    ==> path_views(out@).contains(local_paths@[k]@),
            forall|j1: int, j2: int| 0 <= j1 < j2 < out@.len() ==> (#[trigger] out@[j1]@) != (
            #[trigger] out@[j2]@),
        decreases local_paths@.len() - i,
    {
        let p = &local_paths[i];
        let mut listed = false;
        let mut j: usize = 0;
        while j < out.len()
            invariant
                0 <= j <= out@.len(),
                i < local_paths@.len(),
                p@ == local_paths@[i as int]@,
                listed ==> path_views(out@).contains(local_paths@[i as int]@),
                !listed ==> forall|k: int|
                    0 <= k < j ==> (#[trigger] out@[k]@) != local_paths@[i as int]@,
            decreases out@.len() - j,
        {
            if str_eq(out[j].as_str(), p.as_str()) {
                listed = true;
                proof {
                    assert(path_views(out@)[j as int] == local_paths@[i as int]@);
                }
            }
            j = j + 1;
        }
        let mut found = false;
        let mut j: usize = 0;
        while j < remote_paths.len()
            invariant
                0 <= j <= remote_paths@.len(),
                i < local_paths@.len(),
                p@ == local_paths@[i as int]@,
                found ==> path_views(remote_paths@).contains(local_paths@[i as int]@),
                !found ==> forall|k: int|
                    0 <= k < j ==> (#[trigger] remote_paths@[k]@) != local_paths@[i as int]@,
            decreases remote_paths@.len() - j,
    {
            if str_eq(remote_paths[j].as_str(), p.as_str()) {
                found = true;
                proof {
                    assert(path_views(remote_paths@)[j as int] == local_paths@[i as int]@);
                }
            }
            j = j + 1;
        }
        let ghost out0 = out@;
        if !found && !listed {
            proof {
                assert(forall|k: int|
                    0 <= k < out0.len() ==> (#[trigger] out0[k]@) != local_paths@[i as int]@);
                assert forall|k: int| 0 <= k < path_views(remote_paths@).len() implies (
                #[trigger] path_views(remote_paths@)[k]) != local_paths@[i as int]@ by {
                    assert(remote_paths@[k]@ != local_paths@[i as int]@);
                }
            }
            out.push(p.clone());
            proof {
                assert(path_views(local_paths@)[i as int] == local_paths@[i as int]@);
                assert(out@[out@.len() - 1]@ == local_paths@[i as int]@);
                assert forall|j1: int, j2: int| 0 <= j1 < j2 < out@.len() implies (
                #[trigger] out@[j1]@) != (#[trigger] out@[j2]@) by {
                    if j2 == out@.len() - 1 {
                        assert(out@[j1] == out0[j1]);
                    } else {
                        assert(out@[j1] == out0[j1]);
                        assert(out@[j2] == out0[j2]);
                    }
                }
                assert forall|k: int|
                    0 <= k < i + 1 && !path_views(remote_paths@).contains(
                    #[trigger] local_paths@[k]@) implies path_views(out@).contains(
                    local_paths@[k]@) by {
                    if k == i {
                        assert(path_views(out@)[out@.len() - 1] == local_paths@[k]@);
                    } else {
                        let m = choose|m: int|
                            0 <= m < path_views(out0).len() && (#[trigger] path_views(out0)[m])
                                == local_paths@[k]@;
                        assert(path_views(out@)[m] == local_paths@[k]@);
                    }
                }
            }
        } else {
            proof {
                assert forall|k: int|
                    0 <= k < i + 1 && !path_views(remote_paths@).contains(
                    #[trigger] local_paths@[k]@) implies path_views(out@).contains(
                    local_paths@[k]@) by {
                    if k == i {
                        assert(listed);
                    } else {
                        let m = choose|m: int|
                            0 <= m < path_views(out@).len() && (#[trigger] path_views(out@)[m])
                                == local_paths@[k]@;
                    }
                }
            }
        }
        i = i + 1;
    }
    out
}

/// The engine's standing invariant, spelled out: under every cached path the
/// fingerprint cache holds exactly the fingerprint of the cached content.
pub proof fn lemma_cache_fingerprints(e: SyncEngine)
    requires
        e.wf(),
    ensures
        forall|p: Seq<char>|
            e.local_hashes@.contains_key(p) ==> e.local_content_cache@.contains_key(p) && (
            #[trigger] e.local_hashes@[p]) == spec_fingerprint(e.local_content_cache@[p]),
{
    assert forall|p: Seq<char>| e.local_hashes@.contains_key(p) implies e.local_content_cache@
        .contains_key(p) && (#[trigger] e.local_hashes@[p]) == spec_fingerprint(
        e.local_content_cache@[p]) by {
        assert(e.local_hashes@.dom().contains(p));
        assert(e.local_content_cache@.dom().contains(p));
    }
}

} // verus!

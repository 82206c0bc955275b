use vstd::prelude::*;

use vstd::utf8::encode_utf8;

use crate::frontmatter::{front_matter_loads, read_file, record_of, split_front_matter};
use crate::pipeline::{pipeline_new, pipeline_run, pipeline_wrap, stage_count};
use crate::store::{files_of, store_clone, store_entries, store_insert, store_new, Files, ShFile};

verus! {

/// The settings of a build.
#[derive(Debug, Clone)]
pub struct Config {
    pub ignores: Vec<String>,
    pub source: String,
    pub destination: String,
    pub clean: bool,
    pub frontmatter: bool,
}

/// The paths of a list, as character sequences.
pub open spec fn paths_of(v: Seq<String>) -> Seq<Seq<char>> {
    v.map_values(|s: String| s@)
}

/// The settings as plain values.
pub struct ConfigView {
    pub ignores: Seq<Seq<char>>,
    pub source: Seq<char>,
    pub destination: Seq<char>,
    pub clean: bool,
    pub frontmatter: bool,
}

impl View for Config {
    type V = ConfigView;

    open spec fn view(&self) -> ConfigView {
        ConfigView {
            ignores: paths_of(self.ignores@),
            source: self.source@,
            destination: self.destination@,
            clean: self.clean,
            frontmatter: self.frontmatter,
        }
    }
}

impl Default for Config {
    fn default() -> (r: Config)
        ensures
            r.ignores@.len() == 0,
            r.source@.len() == 0,
            r.destination@.len() == 0,
            !r.clean,
            !r.frontmatter,
    {
        Config {
            ignores: Vec::new(),
            source: String::new(),
            destination: String::new(),
            clean: false,
            frontmatter: false,
        }
    }
}

impl Config {
    /// A copy of the settings.
    pub fn duplicate(&self) -> (r: Config)
        ensures
            r@ == self@,
    {
        let mut ignores: Vec<String> = Vec::new();
        let mut i: usize = 0;
        while i < self.ignores.len()
            invariant
                i <= self.ignores@.len(),
                ignores@ == self.ignores@.take(i as int),
            decreases self.ignores.len() - i,
        {
            ignores.push(self.ignores[i].clone());
            i = i + 1;
        }
        assert(ignores@ =~= self.ignores@);
        assert(paths_of(ignores@) =~= paths_of(self.ignores@));
        Config {
            ignores,
            source: self.source.clone(),
            destination: self.destination.clone(),
            clean: self.clean,
            frontmatter: self.frontmatter,
        }
    }
}

/// The value passed between stages: the file store and the settings.
#[derive(Debug)]
pub struct IR {
    pub files: Files,
    pub config: Config,
}

impl Clone for IR {
    fn clone(&self) -> (r: IR)
        ensures
            files_of(r.files) == files_of(self.files),
            r.config@ == self.config@,
    {
        IR { files: store_clone(&self.files), config: self.config.duplicate() }
    }
}

/// A file of the source tree: its path and its text.
pub struct SourceFile {
    pub path: String,
    pub text: String,
}

/// Why reading the source tree failed.
#[derive(Debug)]
pub enum ReadError {
    /// The file's path cannot be made relative to the source root.
    NotUnderSource(String),
    /// The file's front matter is not valid YAML.
    FrontMatter(String, yaml_rust::ScanError),
}

/// The path `path` takes relative to `base`, if it has one.
pub uninterp spec fn relative_path_of(path: Seq<char>, base: Seq<char>) -> Option<Seq<char>>;

/// Relies on pathdiff::diff_paths: the path of `path` relative to `base`,
/// worked out from the components of the two paths alone; here as text.
#[verifier::external_body]
fn relative_path(path: &str, base: &str) -> (r: Option<String>)
    ensures
        match r {
            Some(s) => relative_path_of(path@, base@) == Some(s@),
            None => relative_path_of(path@, base@) is None,
        },
{
    pathdiff::diff_paths(path, base).and_then(|p| p.to_str().map(|s| s.to_string()))
}

/// The store key of a source file.
pub open spec fn key_of(source: Seq<char>, f: SourceFile) -> Option<Seq<char>> {
    relative_path_of(f.path@, source)
}

/// A source file that can be read: it lies under the root and its front
/// matter is accepted.
pub open spec fn file_reads(source: Seq<char>, parse: bool, f: SourceFile) -> bool {
    key_of(source, f) is Some && front_matter_loads(f.text@, parse)
}

/// `files[i]` is the last of `files` with its key.
pub open spec fn last_with_key(source: Seq<char>, files: Seq<SourceFile>, i: int) -> bool {
    forall|j: int| i < j < files.len() ==> key_of(source, #[trigger] files[j]) != key_of(source, files[i])
}

/// `m` is the store read from `files`: one entry for each key, holding the
/// record of the last file with that key.
pub open spec fn store_read_from(
    m: Map<Seq<char>, ShFile>,
    source: Seq<char>,
    parse: bool,
    files: Seq<SourceFile>,
) -> bool {
    &&& forall|key: Seq<char>|
        #[trigger] m.contains_key(key) <==> exists|i: int|
            0 <= i < files.len() && key_of(source, files[i]) == Some(key)
    &&& forall|i: int|
        0 <= i < files.len() && last_with_key(source, files, i) ==> record_of(
            m[key_of(source, #[trigger] files[i])->Some_0],
            files[i].text@,
            parse,
        )
}

/// `e` is the error for the first file of `files` that cannot be read.
pub open spec fn first_read_error(
    e: ReadError,
    source: Seq<char>,
    parse: bool,
    files: Seq<SourceFile>,
) -> bool {
    exists|i: int|
        0 <= i < files.len() && !file_reads(source, parse, #[trigger] files[i]) && (forall|j: int|
            0 <= j < i ==> file_reads(source, parse, #[trigger] files[j])) && match e {
            ReadError::NotUnderSource(p) => p@ == files[i].path@ && key_of(source, files[i]) is None,
            ReadError::FrontMatter(p, _) => p@ == files[i].path@ && key_of(source, files[i]) is Some
                && !front_matter_loads(files[i].text@, parse),
        }
}

/// Builds the file store from the files of the source tree, keyed by their
/// paths relative to `source`; stops at the first file that cannot be read.
pub fn read_dir(source: &str, parse: bool, files: &Vec<SourceFile>) -> (r: Result<Files, ReadError>)
    ensures
        r is Ok <==> forall|i: int| 0 <= i < files@.len() ==> file_reads(source@, parse, #[trigger] files@[i]),
        match r {
            Ok(m) => store_read_from(files_of(m), source@, parse, files@),
            Err(e) => first_read_error(e, source@, parse, files@),
        },
{
    let mut result = store_new();
    let mut i: usize = 0;
    while i < files.len()
        invariant
            i <= files@.len(),
            forall|j: int| 0 <= j < i ==> file_reads(source@, parse, #[trigger] files@[j]),
            store_read_from(files_of(result), source@, parse, files@.take(i as int)),
        decreases files.len() - i,
    {
        let f = &files[i];
        let key = match relative_path(f.path.as_str(), source) {
            Some(k) => k,
            None => {
                return Err(ReadError::NotUnderSource(f.path.clone()));
            },
        };
        let file = match read_file(f.text.as_str(), parse) {
            Ok(file) => file,
            Err(e) => {
                return Err(ReadError::FrontMatter(f.path.clone(), e));
            },
        };
        let ghost before = files_of(result);
        store_insert(&mut result, key, file);
        proof {
            let done = files@.take(i as int);
            let next = files@.take(i + 1);
            let m = files_of(result);
            assert(next[i as int] == files@[i as int]);
            assert forall|j: int| 0 <= j < i implies #[trigger] next[j] == done[j] by {}
            assert forall|k: Seq<char>| #[trigger] m.contains_key(k) <==> exists|j: int|
                0 <= j < next.len() && key_of(source@, next[j]) == Some(k) by {
                if m.contains_key(k) && k != key@ {
                    let j = choose|j: int| 0 <= j < done.len() && key_of(source@, done[j]) == Some(k);
                    assert(key_of(source@, next[j]) == Some(k));
                }
                if exists|j: int| 0 <= j < next.len() && key_of(source@, next[j]) == Some(k) {
                    let j = choose|j: int| 0 <= j < next.len() && key_of(source@, next[j]) == Some(k);
                    if j < i {
                        assert(key_of(source@, done[j]) == Some(k));
                    }
                }
            }
            assert forall|j: int|
                0 <= j < next.len() && last_with_key(source@, next, j) implies record_of(
                m[key_of(source@, #[trigger] next[j])->Some_0],
                next[j].text@,
                parse,
            ) by {
                if j < i {
                    assert(key_of(source@, next[i as int]) != key_of(source@, next[j]));
                    assert forall|l: int| j < l < done.len() implies key_of(source@, #[trigger] done[l])
                        != key_of(source@, done[j]) by {
                        assert(next[l] == done[l]);
                    }
                    assert(last_with_key(source@, done, j));
                }
            }
        }
        i = i + 1;
    }
    assert(files@.take(i as int) =~= files@);
    Ok(result)
}

/// `b` appended to `a`, leaving out each path already there.
pub open spec fn append_new(a: Seq<Seq<char>>, b: Seq<Seq<char>>) -> Seq<Seq<char>>
    decreases b.len(),
{
    if b.len() == 0 {
        a
    } else {
        let r = append_new(a, b.drop_last());
        if r.contains(b.last()) {
            r
        } else {
            r.push(b.last())
        }
    }
}

/// Appending only new paths keeps a list free of duplicates, and the list
/// then holds exactly the paths of both.
pub proof fn lemma_append_new(a: Seq<Seq<char>>, b: Seq<Seq<char>>)
    requires
        a.no_duplicates(),
    ensures
        append_new(a, b).no_duplicates(),
        append_new(a, b).to_set() == a.to_set() + b.to_set(),
    decreases b.len(),
{
    if b.len() > 0 {
        lemma_append_new(a, b.drop_last());
        let r = append_new(a, b.drop_last());
        assert(b =~= b.drop_last().push(b.last()));
        b.drop_last().lemma_push_to_set_commute(b.last());
        if !r.contains(b.last()) {
            r.lemma_push_to_set_commute(b.last());
            assert forall|i: int, j: int| 0 <= i < j < r.push(b.last()).len() implies r.push(b.last())[i]
                != r.push(b.last())[j] by {
                if j == r.len() {
                    assert(r[i] == r.push(b.last())[i]);
                }
            }
        } else {
            assert(r.to_set().contains(b.last()));
        }
        assert(append_new(a, b).to_set() =~= a.to_set() + b.to_set());
    } else {
        assert(b.to_set() =~= Set::empty());
        assert(a.to_set() + b.to_set() =~= a.to_set());
    }
}

/// Whether `v` holds a path with the characters `p`.
fn contains_path(v: &Vec<String>, p: &String) -> (r: bool)
    ensures
        r == paths_of(v@).contains(p@),
{
    let mut i: usize = 0;
    while i < v.len()
        invariant
            i <= v@.len(),
            forall|j: int| 0 <= j < i ==> v@[j]@ != p@,
        decreases v.len() - i,
    {
        if v[i] == *p {
            assert(paths_of(v@)[i as int] == p@);
            return true;
        }
        i = i + 1;
    }
    proof {
        if paths_of(v@).contains(p@) {
            let j = choose|j: int| 0 <= j < paths_of(v@).len() && paths_of(v@)[j] == p@;
            assert(v@[j]@ == p@);
        }
    }
    false
}

/// The build engine: the settings, the file store and the registered stages.
pub struct Shtola {
    ware: ware::Ware<IR>,
    ir: IR,
}

impl Shtola {
    /// The settings.
    pub closed spec fn settings(&self) -> ConfigView {
        self.ir.config@
    }

    /// How many stages are registered.
    pub closed spec fn stages(&self) -> nat {
        stage_count(self.ware)
    }

    /// The file store held between builds.
    pub closed spec fn store(&self) -> Map<Seq<char>, ShFile> {
        files_of(self.ir.files)
    }

    /// The same engine with other settings.
    pub open spec fn with_settings(&self, old_self: Shtola, c: ConfigView) -> bool {
        &&& self.settings() == c
        &&& self.stages() == old_self.stages()
        &&& self.store() == old_self.store()
    }

    /// An engine with default settings, no stage and an empty store.
    pub fn new() -> (r: Shtola)
        ensures
            r.settings().ignores.len() == 0,
            r.settings().source.len() == 0,
            r.settings().destination.len() == 0,
            !r.settings().clean,
            !r.settings().frontmatter,
            r.stages() == 0,
            r.store().dom().is_empty(),
    {
        let config: Config = Config::default();
        proof {
            assert(paths_of(config.ignores@) =~= Seq::empty());
        }
        let ir = IR { files: store_new(), config };
        Shtola { ware: pipeline_new(), ir }
    }

    /// The current settings.
    pub fn config(&self) -> (r: &Config)
        ensures
            r@ == self.settings(),
    {
        &self.ir.config
    }

    /// Moves the paths of `vec` onto the ignore list, each path once.
    pub fn ignores(&mut self, vec: &mut Vec<String>)
        ensures
            final(self).with_settings(
                *old(self),
                ConfigView {
                    ignores: append_new(old(self).settings().ignores, paths_of(old(vec)@)),
                    ..old(self).settings()
                },
            ),
            final(vec)@.len() == 0,
    {
        let ghost start = paths_of(self.ir.config.ignores@);
        let mut i: usize = 0;
        while i < vec.len()
            invariant
                i <= vec@.len(),
                vec@ == old(vec)@,
                paths_of(self.ir.config.ignores@) == append_new(start, paths_of(vec@.take(i as int))),
                self.ir.files == old(self).ir.files,
                self.ware == old(self).ware,
                self.ir.config.source == old(self).ir.config.source,
                self.ir.config.destination == old(self).ir.config.destination,
                self.ir.config.clean == old(self).ir.config.clean,
                self.ir.config.frontmatter == old(self).ir.config.frontmatter,
            decreases vec.len() - i,
        {
            let ghost prev = paths_of(self.ir.config.ignores@);
            assert(paths_of(vec@.take(i + 1)).drop_last() =~= paths_of(vec@.take(i as int)));
            assert(paths_of(vec@.take(i + 1)).last() == vec@[i as int]@);
            if !contains_path(&self.ir.config.ignores, &vec[i]) {
                let p = vec[i].clone();
                self.ir.config.ignores.push(p);
                assert(paths_of(self.ir.config.ignores@) =~= prev.push(vec@[i as int]@));
            }
            i = i + 1;
        }
        assert(vec@.take(i as int) =~= vec@);
        vec.clear();
    }

    /// Sets the source root.
    pub fn source(&mut self, path: String)
        ensures
            final(self).with_settings(*old(self), ConfigView { source: path@, ..old(self).settings() }),
    {
        self.ir.config.source = path;
    }

    /// Sets the destination root.
    pub fn destination(&mut self, path: String)
        ensures
            final(self).with_settings(
                *old(self),
                ConfigView { destination: path@, ..old(self).settings() },
            ),
    {
        self.ir.config.destination = path;
    }

    /// Sets whether the destination is emptied before a build.
    pub fn clean(&mut self, b: bool)
        ensures
            final(self).with_settings(*old(self), ConfigView { clean: b, ..old(self).settings() }),
    {
        self.ir.config.clean = b;
    }

    /// Sets whether front matter is parsed.
    pub fn frontmatter(&mut self, b: bool)
        ensures
            final(self).with_settings(*old(self), ConfigView { frontmatter: b, ..old(self).settings() }),
    {
        self.ir.config.frontmatter = b;
    }

    /// Appends a stage; stages run in the order of registration.
    pub fn register<F: Fn(IR) -> IR + 'static>(&mut self, func: F)
        ensures
            final(self).stages() == old(self).stages() + 1,
            final(self).settings() == old(self).settings(),
            final(self).store() == old(self).store(),
    {
        pipeline_wrap(&mut self.ware, func);
    }

    /// Reads the source files into the store, then runs the stages over it.
    /// Without stages the result holds the store as read and the settings.
    pub fn build(&mut self, files: &Vec<SourceFile>) -> (r: Result<IR, ReadError>)
        ensures
            final(self).settings() == old(self).settings(),
            final(self).stages() == old(self).stages(),
            r is Ok <==> forall|i: int|
                0 <= i < files@.len() ==> file_reads(
                    old(self).settings().source,
                    old(self).settings().frontmatter,
                    #[trigger] files@[i],
                ),
            match r {
                Ok(ir) => {
                    &&& store_read_from(
                        final(self).store(),
                        old(self).settings().source,
                        old(self).settings().frontmatter,
                        files@,
                    )
                    &&& old(self).stages() == 0 ==> files_of(ir.files) == final(self).store()
                        && ir.config@ == old(self).settings()
                },
                Err(e) => first_read_error(
                    e,
                    old(self).settings().source,
                    old(self).settings().frontmatter,
                    files@,
                ),
            },
    {
        let files = match read_dir(self.ir.config.source.as_str(), self.ir.config.frontmatter, files) {
            Ok(m) => m,
            Err(e) => {
                return Err(e);
            },
        };
        self.ir.files = files;
        let result = pipeline_run(&self.ware, self.ir.clone());
        Ok(result)
    }
}

impl IR {
    /// What the store holds, keyed by path.
    pub open spec fn contents(&self) -> Map<Seq<char>, Seq<u8>> {
        files_of(self.files).map_values(|f: ShFile| f.content@)
    }

    /// The files to write: each path of the store once, with its content.
    pub fn outputs(&self) -> (r: Vec<(String, Vec<u8>)>)
        ensures
            forall|i: int|
                0 <= i < r@.len() ==> #[trigger] self.contents().contains_key(r@[i].0@)
                    && r@[i].1@ == self.contents()[r@[i].0@],
            forall|key: Seq<char>|
                #[trigger] self.contents().contains_key(key) ==> exists|i: int|
                    0 <= i < r@.len() && r@[i].0@ == key,
            forall|i: int, j: int| 0 <= i < j < r@.len() ==> r@[i].0@ != r@[j].0@,
    {
        let mut entries = store_entries(&self.files);
        let ghost all = entries@;
        let mut out: Vec<(String, Vec<u8>)> = Vec::new();
        while entries.len() > 0
            invariant
                entries@ == all.take(entries@.len() as int),
                entries@.len() <= all.len(),
                out@.len() + entries@.len() == all.len(),
                forall|i: int|
                    0 <= i < all.len() ==> files_of(self.files).contains_key(#[trigger] all[i].0@)
                        && all[i].1 == files_of(self.files)[all[i].0@],
                forall|key: Seq<char>|
                    #[trigger] files_of(self.files).contains_key(key) ==> exists|i: int|
                        0 <= i < all.len() && all[i].0@ == key,
                forall|i: int, j: int| 0 <= i < j < all.len() ==> all[i].0@ != all[j].0@,
                forall|i: int|
                    0 <= i < out@.len() ==> out@[i].0@ == #[trigger] all[all.len() - 1 - i].0@
                        && out@[i].1@ == all[all.len() - 1 - i].1.content@,
            decreases entries.len(),
        {
            let (key, file) = entries.pop().unwrap();
            assert(entries@ =~= all.take(entries@.len() as int));
            out.push((key, file.content));
        }
        proof {
            let n = all.len();
            assert forall|i: int|
                0 <= i < out@.len() implies #[trigger] self.contents().contains_key(out@[i].0@)
                && out@[i].1@ == self.contents()[out@[i].0@] by {
                assert(files_of(self.files).contains_key(all[n - 1 - i].0@));
            }
            assert forall|key: Seq<char>| #[trigger] self.contents().contains_key(key) implies exists|i: int|
                0 <= i < out@.len() && out@[i].0@ == key by {
                let k = choose|k: int| 0 <= k < n && all[k].0@ == key;
                let i = n - 1 - k;
                assert(out@.len() == n);
                assert(out@[i].0@ == all[n - 1 - i].0@);
                assert(n - 1 - i == k);
            }
            assert forall|i: int, j: int| 0 <= i < j < out@.len() implies out@[i].0@ != out@[j].0@ by {
                assert(out@[i].0@ == all[n - 1 - i].0@);
                assert(out@[j].0@ == all[n - 1 - j].0@);
            }
        }
        out
    }
}

/// A build without stages writes each file whose text has no front matter
/// byte for byte as read, at its path relative to the source root; the paths
/// written are exactly those of the source files.
pub proof fn lemma_no_stage_copies_files(
    ir: IR,
    source: Seq<char>,
    parse: bool,
    files: Seq<SourceFile>,
    i: int,
)
    requires
        store_read_from(files_of(ir.files), source, parse, files),
        0 <= i < files.len(),
        key_of(source, files[i]) is Some,
        last_with_key(source, files, i),
        split_front_matter(files[i].text@).1 == files[i].text@,
    ensures
        ir.contents().contains_key(key_of(source, files[i])->Some_0),
        ir.contents()[key_of(source, files[i])->Some_0] == encode_utf8(files[i].text@),
        forall|key: Seq<char>|
            #[trigger] ir.contents().contains_key(key) <==> exists|j: int|
                0 <= j < files.len() && key_of(source, files[j]) == Some(key),
{
    let key = key_of(source, files[i])->Some_0;
    assert(files_of(ir.files).contains_key(key));
    assert(record_of(files_of(ir.files)[key], files[i].text@, parse));
}

} // verus!

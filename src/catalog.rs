use vstd::prelude::*;
use crate::record::{get_entry, load_spec, opt_view, Entry, EntryView};

verus! {

/// A child of a collection directory: its file name, and its text where it
/// could be read.
pub struct DirFile {
    pub name: String,
    pub text: Option<String>,
}

pub struct DirFileView {
    pub name: Seq<char>,
    pub text: Option<Seq<char>>,
}

impl View for DirFile {
    type V = DirFileView;

    open spec fn view(&self) -> DirFileView {
        DirFileView {
            name: self.name@,
            text: match self.text {
                Some(t) => Some(t@),
                None => None,
            },
        }
    }
}

pub open spec fn files_view(v: Seq<DirFile>) -> Seq<DirFileView> {
    v.map_values(|f: DirFile| f@)
}

pub open spec fn entries_view(v: Seq<Entry>) -> Seq<EntryView> {
    v.map_values(|e: Entry| e@)
}

/// The name ends in `.json` after a non-empty stem that holds no further `.`.
pub open spec fn is_candidate(name: Seq<char>) -> bool {
    &&& name.len() > 5
    &&& name.subrange(name.len() - 5, name.len() as int) == ".json"@
    &&& forall|i: int| 0 <= i < name.len() - 5 ==> name[i] != '.'
}

/// The file name without its `.json` extension.
pub open spec fn stem(name: Seq<char>) -> Seq<char> {
    name.subrange(0, name.len() - 5)
}

/// The entry that a directory child holds, if it is a candidate that loads.
pub open spec fn loaded(f: DirFileView) -> Option<EntryView> {
    if is_candidate(f.name) {
        match f.text {
            Some(t) => load_spec(stem(f.name), t),
            None => None,
        }
    } else {
        None
    }
}

/// The entries that a listing of these children shows, in directory order.
pub open spec fn visible(fs: Seq<DirFileView>) -> Seq<EntryView>
    decreases fs.len(),
{
    if fs.len() == 0 {
        Seq::empty()
    } else {
        let rest = visible(fs.drop_last());
        match loaded(fs.last()) {
            Some(e) => if e.is_hidden() {
                rest
            } else {
                rest.push(e)
            },
            None => rest,
        }
    }
}

/// Most recent first.
pub open spec fn newest_first(s: Seq<EntryView>) -> bool {
    forall|i: int, j: int|
        0 <= i < j < s.len() ==> (#[trigger] s[i]).created_at.spec_not_before(
            (#[trigger] s[j]).created_at,
        )
}

/// Tells whether a file name is that of an entry file.
pub fn is_entry_file(name: &str) -> (r: bool)
    ensures
        r == is_candidate(name@),
{
    let len = name.unicode_len();
    if len <= 5 {
        return false;
    }
    let ext = name.substring_char(len - 5, len);
    let json = String::from_str(".json");
    if !(String::from_str(ext) == json) {
        return false;
    }
    let mut i: usize = 0;
    while i < len - 5
        invariant
            len == name@.len(),
            len > 5,
            i <= len - 5,
            forall|k: int| 0 <= k < i ==> name@[k] != '.',
        decreases len - 5 - i,
    {
        if name.get_char(i) == '.' {
            return false;
        }
        i += 1;
    }
    true
}

/// Loads the entry that a directory child holds, if it is an entry file whose
/// text is a valid entry; its id is the file's stem.
pub fn get_json(file: &DirFile) -> (r: Option<Entry>)
    ensures
        opt_view(r) == loaded(file@),
{
    if !is_entry_file(file.name.as_str()) {
        return None;
    }
    let len = file.name.as_str().unicode_len();
    let id = file.name.as_str().substring_char(0, len - 5);
    match &file.text {
        Some(t) => get_entry(id, t.as_str()),
        None => None,
    }
}

/// Where the first entry earlier than `t` stands, or the end.
fn insert_position(out: &Vec<Entry>, e: &Entry) -> (r: usize)
    requires
        newest_first(entries_view(out@)),
    ensures
        r <= out.len(),
        forall|k: int| 0 <= k < r ==> out@[k].created_at.spec_not_before(e.created_at),
        forall|k: int| r <= k < out.len() ==> !out@[k].created_at.spec_not_before(e.created_at),
{
    let mut i: usize = 0;
    while i < out.len()
        invariant
            i <= out.len(),
            newest_first(entries_view(out@)),
            forall|k: int| 0 <= k < i ==> out@[k].created_at.spec_not_before(e.created_at),
        decreases out.len() - i,
    {
        if !out[i].created_at.not_before(&e.created_at) {
            proof {
                assert forall|k: int| i <= k < out.len() implies !out@[k].created_at.spec_not_before(
                    e.created_at,
                ) by {
                    if k > i {
                        assert(entries_view(out@)[i as int] == out@[i as int]@);
                        assert(entries_view(out@)[k] == out@[k]@);
                    }
                }
            }
            return i;
        }
        i += 1;
    }
    i
}

/// The entries of a collection's children: each entry file that loads and is
/// not hidden, most recent first.
pub fn get_entries(files: &Vec<DirFile>) -> (r: Vec<Entry>)
    ensures
        entries_view(r@).to_multiset() == visible(files_view(files@)).to_multiset(),
        newest_first(entries_view(r@)),
{
    let mut out: Vec<Entry> = Vec::new();
    let mut i: usize = 0;
    assert(entries_view(out@) =~= Seq::<EntryView>::empty());
    assert(files_view(files@).subrange(0, 0) =~= Seq::<DirFileView>::empty());
    while i < files.len()
        invariant
            i <= files.len(),
            entries_view(out@).to_multiset() == visible(
                files_view(files@).subrange(0, i as int),
            ).to_multiset(),
            newest_first(entries_view(out@)),
        decreases files.len() - i,
    {
        let ghost prev = entries_view(out@);
        assert(files_view(files@).subrange(0, i + 1).drop_last() =~= files_view(files@).subrange(
            0,
            i as int,
        ));
        assert(files_view(files@).subrange(0, i + 1).last() == files@[i as int]@);
        proof {
            visible(files_view(files@).subrange(0, i as int)).to_multiset_ensures();
        }
        match get_json(&files[i]) {
            Some(e) => {
                if !e.is_hidden() {
                    let pos = insert_position(&out, &e);
                    let ghost ev = e@;
                    out.insert(pos, e);
                    proof {
                        let now = entries_view(out@);
                        assert(now =~= prev.insert(pos as int, ev));
                        assert(now.remove(pos as int) =~= prev);
                        assert(now.to_multiset() =~= prev.to_multiset().insert(ev)) by {
                            now.to_multiset_ensures();
                            assert(now.remove(pos as int).to_multiset() == now.to_multiset().remove(
                                now[pos as int],
                            ));
                            assert(now.contains(ev)) by {
                                assert(now[pos as int] == ev);
                            }
                        }
                        assert forall|a: int, b: int| 0 <= a < b < now.len() implies (
                        #[trigger] now[a]).created_at.spec_not_before((#[trigger] now[b]).created_at) by {
                            if b < pos {
                                assert(now[a] == prev[a] && now[b] == prev[b]);
                            } else if b == pos {
                                assert(now[a] == out@[a]@);
                            } else if a == pos {
                                assert(now[b] == prev[b - 1]);
                                assert(prev[b - 1] == out@[b]@);
                            } else if a < pos {
                                assert(now[a] == prev[a] && now[b] == prev[b - 1]);
                            } else {
                                assert(now[a] == prev[a - 1] && now[b] == prev[b - 1]);
                            }
                        }
                    }
                }
            },
            None => {},
        }
        i += 1;
    }
    assert(files_view(files@).subrange(0, files.len() as int) =~= files_view(files@));
    out
}

/// Why a request fails.
#[derive(Clone, Copy, Debug, PartialEq, Eq)]
pub enum ApiError {
    /// The entry's file does not exist.
    NotFound,
    /// The entry's file exists but holds no valid entry.
    LoadError,
    /// The collection's directory cannot be read.
    ScanError,
}

impl ApiError {
    pub open spec fn spec_code(self) -> u16 {
        match self {
            ApiError::NotFound => 404,
            _ => 500,
        }
    }

    /// The HTTP status that reports the failure.
    pub fn code(&self) -> (r: u16)
        ensures
            r == self.spec_code(),
    {
        match self {
            ApiError::NotFound => 404,
            _ => 500,
        }
    }
}

/// The body sent with a failed request.
#[derive(Clone, Copy, Debug, PartialEq, Eq)]
pub struct ErrorStatus {
    pub error: u16,
}

/// The body that reports a failed request with HTTP status `code`.
pub fn default_catcher(code: u16) -> (r: ErrorStatus)
    ensures
        r.error == code,
{
    ErrorStatus { error: code }
}

/// The names of the collections, in the order they are announced.
pub open spec fn collection_names() -> Seq<Seq<char>> {
    seq!["vods"@, "highlights"@, "clips"@, "rplay"@]
}

/// The known collections.
pub fn index() -> (r: Vec<String>)
    ensures
        r@.map_values(|s: String| s@) == collection_names(),
{
    let r = vec![
        String::from_str("vods"),
        String::from_str("highlights"),
        String::from_str("clips"),
        String::from_str("rplay"),
    ];
    assert(r@.map_values(|s: String| s@) =~= collection_names());
    r
}

/// The path of the file that holds entry `id` of collection `kind`.
pub fn entry_path(kind: &str, id: &str) -> (r: String)
    ensures
        r@ == kind@ + "/"@ + id@ + ".json"@,
{
    let mut p = String::from_str(kind);
    p.append("/");
    p.append(id);
    p.append(".json");
    p
}

/// A listing of a collection: its entries, or a failure where its directory
/// could not be read (`None`).
pub fn lists(children: Option<Vec<DirFile>>) -> (r: Result<Vec<Entry>, ApiError>)
    ensures
        children is None ==> r == Err::<Vec<Entry>, ApiError>(ApiError::ScanError),
        children matches Some(fs) ==> r matches Ok(v) && entries_view(v@).to_multiset()
            == visible(files_view(fs@)).to_multiset() && newest_first(entries_view(v@)),
{
    match children {
        Some(fs) => Ok(get_entries(&fs)),
        None => Err(ApiError::ScanError),
    }
}

/// What became of reading an entry's file.
pub enum FileRead {
    /// No file is at the entry's path.
    Missing,
    /// A file is there but could not be read as text.
    Unreadable,
    Text(String),
}

/// Looks up entry `id` from what reading its file gave; hidden entries are
/// found too.
pub fn entry(id: &str, file: &FileRead) -> (r: Result<Entry, ApiError>)
    ensures
        *file is Missing ==> r == Err::<Entry, ApiError>(ApiError::NotFound),
        *file is Unreadable ==> r == Err::<Entry, ApiError>(ApiError::LoadError),
        file matches FileRead::Text(t) ==> match load_spec(id@, t@) {
            Some(e) => r matches Ok(x) && x@ == e,
            None => r == Err::<Entry, ApiError>(ApiError::LoadError),
        },
{
    match file {
        FileRead::Missing => Err(ApiError::NotFound),
        FileRead::Unreadable => Err(ApiError::LoadError),
        FileRead::Text(t) => match get_entry(id, t.as_str()) {
            Some(e) => Ok(e),
            None => Err(ApiError::LoadError),
        },
    }
}

/// A listing holds an entry exactly when some child is an entry file that loads
/// to it and it is not hidden.
pub proof fn lemma_listing_membership(fs: Seq<DirFileView>, e: EntryView)
    ensures
        visible(fs).contains(e) <==> (!e.is_hidden() && exists|i: int|
            0 <= i < fs.len() && loaded(#[trigger] fs[i]) == Some(e)),
    decreases fs.len(),
{
    if fs.len() > 0 {
        let init = fs.drop_last();
        lemma_listing_membership(init, e);
        if visible(fs).contains(e) {
            let rest = visible(init);
            if !rest.contains(e) {
                let k = choose|k: int| 0 <= k < visible(fs).len() && visible(fs)[k] == e;
                assert(k == rest.len());
                assert(loaded(fs[fs.len() - 1]) == Some(e));
            } else {
                let i = choose|i: int| 0 <= i < init.len() && loaded(#[trigger] init[i]) == Some(e);
                assert(fs[i] == init[i]);
            }
        }
        if !e.is_hidden() && exists|i: int| 0 <= i < fs.len() && loaded(#[trigger] fs[i]) == Some(e) {
            let i = choose|i: int| 0 <= i < fs.len() && loaded(#[trigger] fs[i]) == Some(e);
            if i < fs.len() - 1 {
                assert(init[i] == fs[i]);
                let rest = visible(init);
                let k = choose|k: int| 0 <= k < rest.len() && rest[k] == e;
                match loaded(fs.last()) {
                    Some(x) => if !x.is_hidden() {
                        assert(visible(fs)[k] == e);
                    },
                    None => {},
                }
            } else {
                assert(visible(fs).last() == e);
            }
        }
    }
}

/// Every entry of a listing carries the id of an entry file: a stem with no `.`.
pub proof fn lemma_listed_ids(fs: Seq<DirFileView>, e: EntryView)
    requires
        visible(fs).contains(e),
    ensures
        forall|k: int| 0 <= k < e.id.len() ==> e.id[k] != '.',
{
    lemma_listing_membership(fs, e);
    let i = choose|i: int| 0 <= i < fs.len() && loaded(#[trigger] fs[i]) == Some(e);
    assert(e.id == stem(fs[i].name));
}

/// A file whose stem holds a `.` (such as `x.meta.json`) adds nothing to a
/// listing, whatever it holds.
pub proof fn lemma_dotted_stem_ignored(fs: Seq<DirFileView>, f: DirFileView, k: int)
    requires
        0 <= k < f.name.len() - 5,
        f.name[k] == '.',
    ensures
        !is_candidate(f.name),
        visible(fs.push(f)) == visible(fs),
{
    assert(fs.push(f).drop_last() =~= fs);
}

} // verus!

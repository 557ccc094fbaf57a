//! Files on the Hugging Face Hub.

use vstd::prelude::*;
use vstd::string::StringExecFns;

use crate::error::{Error, ErrorView};
use crate::text::{chars_of, decimal, decimal_of, string_of, texts};

verus! {

/// The type of a repository.
#[derive(Debug, Clone, Copy, PartialEq, Eq, Structural)]
pub enum HfRepoType {
    Model,
    Dataset,
    Space,
}

/// What is done with a repository.
#[derive(Debug, Clone, PartialEq, Eq)]
pub enum HfCommand {
    /// List its files.
    List { repo_id: String, repo_type: HfRepoType },
    /// Download one of its files.
    Download {
        repo_id: String,
        filename: String,
        revision: Option<String>,
        repo_type: HfRepoType,
        output: Option<String>,
    },
}

/// Where the first slash at or behind a place stands.
pub open spec fn slash_from(text: Seq<char>, from: int) -> Option<int>
    decreases text.len() - from,
{
    if from < 0 || from >= text.len() {
        None
    } else if text[from] == '/' {
        Some(from)
    } else {
        slash_from(text, from + 1)
    }
}

/// Where the name of the repository ends in the path of a file: at the second slash, or at the
/// only one.
pub open spec fn repo_end(path: Seq<char>) -> Option<int> {
    match slash_from(path, 0) {
        Some(first) => match slash_from(path, first + 1) {
            Some(second) => Some(second),
            None => Some(first),
        },
        None => None,
    }
}

/// The head of a Hub URI.
pub open spec fn uri_head() -> Seq<char> {
    seq!['h', 'f', ':', '/', '/']
}

/// The repository and the file that a URI names.
pub open spec fn hub_parts(uri: Seq<char>) -> Result<(Seq<char>, Seq<char>), ErrorView> {
    if uri.len() < 5 || uri.take(5) != uri_head() {
        Err(ErrorView::NotAHubUri)
    } else {
        let path = uri.skip(5);
        match repo_end(path) {
            Some(end) => Ok((path.take(end), path.skip(end + 1))),
            None => Err(ErrorView::IncompleteHubUri),
        }
    }
}

/// Where the first slash at or behind a place stands.
fn find_slash(text: &Vec<char>, from: usize) -> (r: Option<usize>)
    requires
        from <= text.len(),
    ensures
        match slash_from(text@, from as int) {
            Some(at) => r matches Some(i) && i == at,
            None => r is None,
        },
        r matches Some(i) ==> from <= i < text.len(),
{
    let mut i: usize = from;
    while i < text.len()
        invariant
            from <= i <= text.len(),
            slash_from(text@, from as int) == slash_from(text@, i as int),
        decreases text.len() - i,
    {
        if text[i] == '/' {
            return Some(i);
        }
        i += 1;
    }
    None
}

/// The characters from one place up to another.
fn piece(text: &Vec<char>, from: usize, to: usize) -> (r: String)
    requires
        from <= to <= text.len(),
    ensures
        r@ == text@.subrange(from as int, to as int),
{
    let mut out: Vec<char> = Vec::new();
    let mut i: usize = from;
    while i < to
        invariant
            from <= i <= to <= text.len(),
            out@ == text@.subrange(from as int, i as int),
        decreases to - i,
    {
        out.push(text[i]);
        assert(out@ =~= text@.subrange(from as int, i + 1));
        i += 1;
    }
    string_of(&out)
}

/// Whether a text begins as a Hub URI does.
pub fn is_hub_uri(uri: &str) -> (r: bool)
    ensures
        r == (uri@.len() >= 5 && uri@.take(5) == uri_head()),
{
    let chars = chars_of(uri);
    let r = chars.len() >= 5 && chars[0] == 'h' && chars[1] == 'f' && chars[2] == ':' && chars[3]
        == '/' && chars[4] == '/';
    proof {
        if r {
            assert(uri@.take(5) =~= uri_head());
        } else if uri@.len() >= 5 && uri@.take(5) == uri_head() {
            let head = uri@.take(5);
            assert(head[0] == uri@[0] && head[1] == uri@[1] && head[2] == uri@[2] && head[3]
                == uri@[3] && head[4] == uri@[4]);
        }
    }
    r
}

/// Takes a URI such as `hf://owner/name/path/to/file` apart into the repository and the file. The
/// repository may also be a name without an owner, where the file is in no directory.
pub fn resolve_hf_uri(uri: &str) -> (r: Result<(String, String), Error>)
    ensures
        match hub_parts(uri@) {
            Ok((repo, file)) => r matches Ok((a, b)) && a@ == repo && b@ == file,
            Err(e) => r is Err && r->Err_0@ == e,
        },
{
    if !is_hub_uri(uri) {
        return Err(Error::NotAHubUri);
    }
    let chars = chars_of(uri);
    let path = chars_of(piece(&chars, 5, chars.len()).as_str());
    assert(path@ =~= uri@.skip(5));
    let first = match find_slash(&path, 0) {
        Some(first) => first,
        None => return Err(Error::IncompleteHubUri),
    };
    let end = match find_slash(&path, first + 1) {
        Some(second) => second,
        None => first,
    };
    let repo = piece(&path, 0, end);
    let file = piece(&path, end + 1, path.len());
    assert(repo@ =~= path@.take(end as int));
    assert(file@ =~= path@.skip(end + 1));
    Ok((repo, file))
}

/// A slash that is found stands where it is looked for.
proof fn lemma_slash_from(text: Seq<char>, from: int)
    requires
        0 <= from,
    ensures
        slash_from(text, from) matches Some(at) ==> from <= at < text.len() && text[at] == '/',
    decreases text.len() - from,
{
    if from < text.len() && text[from] != '/' {
        lemma_slash_from(text, from + 1);
    }
}

/// A URI is its head, the repository, a slash and the file.
pub proof fn law_uri_parts_rejoin(uri: Seq<char>)
    requires
        hub_parts(uri) is Ok,
    ensures
        uri_head() + hub_parts(uri)->Ok_0.0 + seq!['/'] + hub_parts(uri)->Ok_0.1 == uri,
{
    let path = uri.skip(5);
    lemma_slash_from(path, 0);
    let first = slash_from(path, 0)->0;
    lemma_slash_from(path, first + 1);
    let end = repo_end(path)->0;
    assert(path =~= path.take(end) + seq!['/'] + path.skip(end + 1));
    assert(uri =~= uri.take(5) + path);
    assert(uri_head() + hub_parts(uri)->Ok_0.0 + seq!['/'] + hub_parts(uri)->Ok_0.1 =~= uri);
}

/// No slash is found in a text that has none.
proof fn lemma_no_slash(text: Seq<char>, from: int, to: int)
    requires
        0 <= from <= to <= text.len(),
        forall|i: int| from <= i < to ==> #[trigger] text[i] != '/',
    ensures
        slash_from(text, from) == slash_from(text, to),
    decreases to - from,
{
    if from < to {
        lemma_no_slash(text, from + 1, to);
    }
}

/// The URI of a file of an owner's repository names just these.
pub proof fn law_uri_of_repo_and_file(owner: Seq<char>, name: Seq<char>, file: Seq<char>)
    requires
        forall|i: int| 0 <= i < owner.len() ==> #[trigger] owner[i] != '/',
        forall|i: int| 0 <= i < name.len() ==> #[trigger] name[i] != '/',
    ensures
        hub_parts(uri_head() + owner + seq!['/'] + name + seq!['/'] + file) == Ok::<
            (Seq<char>, Seq<char>),
            ErrorView,
        >((owner + seq!['/'] + name, file)),
{
    let uri = uri_head() + owner + seq!['/'] + name + seq!['/'] + file;
    let repo = owner + seq!['/'] + name;
    let path = uri.skip(5);
    assert(uri.take(5) =~= uri_head());
    assert(path =~= repo + seq!['/'] + file);
    let first = owner.len() as int;
    let second = repo.len() as int;
    assert forall|i: int| 0 <= i < first implies #[trigger] path[i] != '/' by {
        assert(path[i] == owner[i]);
    }
    lemma_no_slash(path, 0, first);
    assert(path[first] == '/');
    assert forall|i: int| first + 1 <= i < second implies #[trigger] path[i] != '/' by {
        assert(path[i] == name[i - first - 1]);
    }
    lemma_no_slash(path, first + 1, second);
    assert(path[second] == '/');
    assert(path.take(second) =~= repo);
    assert(path.skip(second + 1) =~= file);
}

/// The listing of a repository's files: how many there are, and their names, indented.
pub open spec fn listing(repo_id: Seq<char>, files: Seq<Seq<char>>) -> Seq<Seq<char>> {
    seq![decimal(files.len()) + " files in "@ + repo_id + ":"@] + files.map_values(
        |name: Seq<char>| "  "@ + name,
    )
}

/// The listing of a repository's files.
pub fn file_listing(repo_id: &str, files: &Vec<String>) -> (r: Vec<String>)
    ensures
        texts(r@) == listing(repo_id@, texts(files@)),
{
    let ghost wanted = listing(repo_id@, texts(files@));
    let mut out: Vec<String> = Vec::new();
    out.push(
        decimal_of(files.len() as u64).concat(" files in ").concat(repo_id).concat(":"),
    );
    let mut i: usize = 0;
    while i < files.len()
        invariant
            i <= files.len(),
            wanted == listing(repo_id@, texts(files@)),
            out.len() == i + 1,
            forall|k: int| 0 <= k <= i ==> (#[trigger] out@[k])@ == wanted[k],
        decreases files.len() - i,
    {
        out.push("  ".to_owned().concat(files[i].as_str()));
        i += 1;
    }
    assert(texts(out@) =~= wanted);
    out
}

/// A URI without its head is no Hub URI, and one without a slash behind the head names no file; any
/// other is resolved.
pub proof fn law_unusable_uris(uri: Seq<char>)
    ensures
        uri_head() == "hf://"@,
        uri.len() < 5 || uri.take(5) != "hf://"@ <==> hub_parts(uri) == Err::<
            (Seq<char>, Seq<char>),
            ErrorView,
        >(ErrorView::NotAHubUri),
        uri.len() >= 5 && uri.take(5) == "hf://"@ ==> (hub_parts(uri) is Ok <==> exists|i: int|
            5 <= i < uri.len() && #[trigger] uri[i] == '/'),
{
    reveal_strlit("hf://");
    assert(uri_head() =~= "hf://"@);
    if uri.len() >= 5 && uri.take(5) == "hf://"@ {
        let path = uri.skip(5);
        if exists|i: int| 5 <= i < uri.len() && #[trigger] uri[i] == '/' {
            let i = choose|i: int| 5 <= i < uri.len() && #[trigger] uri[i] == '/';
            if slash_from(path, 0) is None {
                lemma_slash_none(path, 0, i - 5);
            }
        } else {
            assert forall|i: int| 0 <= i < path.len() implies #[trigger] path[i] != '/' by {
                assert(uri[i + 5] != '/');
            }
            lemma_no_slash(path, 0, path.len() as int);
        }
    }
}

/// Where no slash is found there is none.
proof fn lemma_slash_none(text: Seq<char>, from: int, i: int)
    requires
        0 <= from <= i < text.len(),
        slash_from(text, from) is None,
    ensures
        text[i] != '/',
    decreases text.len() - from,
{
    if from < i {
        lemma_slash_none(text, from + 1, i);
    }
}

/// A URI with one slash behind its head names a repository without an owner, and a file.
pub proof fn law_uri_of_repo_without_owner(name: Seq<char>, file: Seq<char>)
    requires
        forall|i: int| 0 <= i < name.len() ==> #[trigger] name[i] != '/',
        forall|i: int| 0 <= i < file.len() ==> #[trigger] file[i] != '/',
    ensures
        hub_parts("hf://"@ + name + seq!['/'] + file) == Ok::<(Seq<char>, Seq<char>), ErrorView>(
            (name, file),
        ),
{
    reveal_strlit("hf://");
    let uri = "hf://"@ + name + seq!['/'] + file;
    let path = uri.skip(5);
    let first = name.len() as int;
    assert("hf://"@ =~= uri_head());
    assert(uri.take(5) =~= uri_head());
    assert(path =~= name + seq!['/'] + file);
    assert forall|i: int| 0 <= i < first implies #[trigger] path[i] != '/' by {
        assert(path[i] == name[i]);
    }
    lemma_no_slash(path, 0, first);
    assert(path[first] == '/');
    assert forall|i: int| first + 1 <= i < path.len() implies #[trigger] path[i] != '/' by {
        assert(path[i] == file[i - first - 1]);
    }
    lemma_no_slash(path, first + 1, path.len() as int);
    assert(path.take(first) =~= name);
    assert(path.skip(first + 1) =~= file);
}

/// The listing tells the number of files and the repository, and then each file by its name.
pub proof fn law_listing_names_every_file(repo_id: Seq<char>, files: Seq<Seq<char>>, i: int)
    requires
        0 <= i < files.len(),
    ensures
        listing(repo_id, files).len() == files.len() + 1,
        listing(repo_id, files)[0] == decimal(files.len()) + " files in "@ + repo_id + ":"@,
        listing(repo_id, files)[i + 1] == "  "@ + files[i],
{
}

} // verus!

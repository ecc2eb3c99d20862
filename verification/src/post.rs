//! The posting queue: folders of comic strips waiting to be published.

use vstd::prelude::*;
use vstd::string::*;
use crate::text::{
    lemma_replaced_skips, parse_u32, parsed_u32, replace_all, replaced, trim, trimmed,
};

verus! {

/// The directory that holds one folder for each post still to be published.
pub const DIR: &'static str = "posts/next";

/// A post of the queue.
#[derive(Debug, PartialEq, Eq)]
pub struct Post {
    /// Name of the post's folder: its number in the series.
    pub index: String,
    /// Content of the folder's title file.
    pub title: String,
}

/// A post as its two texts.
pub ghost struct PostView {
    pub index: Seq<char>,
    pub title: Seq<char>,
}

impl View for Post {
    type V = PostView;

    open spec fn view(&self) -> PostView {
        PostView { index: self.index@, title: self.title@ }
    }
}

/// The caption of a post: its title without surrounding white space, a green
/// heart, the tags of the series, and the post's index in square brackets.
pub open spec fn caption(post: PostView) -> Seq<char> {
    trimmed(post.title) + " ðŸ’š\n\n#esperanto #garfield #mondodakomiksoj ["@ + post.index + "]"@
}

/// The caption under which `post` is published.
pub fn get_caption(post: &Post) -> (r: String)
    ensures
        r@ == caption(post@),
{
    let mut r: String = String::from_str(trim(post.title.as_str()));
    r.append(" ðŸ’š\n\n#esperanto #garfield #mondodakomiksoj [");
    r.append(post.index.as_str());
    r.append("]");
    r
}

/// The folder of the post with the given index, with a slash at its end.
pub open spec fn folder_path(index: Seq<char>) -> Seq<char> {
    DIR@ + "/"@ + index + "/"@
}

/// The folder that holds the files of the post with the given index.
pub fn post_path(index: &str) -> (r: String)
    ensures
        r@ == folder_path(index@),
{
    let mut r: String = String::from_str(DIR);
    r.append("/");
    r.append(index);
    r.append("/");
    r
}

/// The files that a post's folder may hold.
#[derive(Debug, Clone, Copy, PartialEq, Eq, Structural)]
pub enum FolderFile {
    /// The title of the strip.
    Title,
    /// Corrections to a strip already drawn; a folder with this file is not ready.
    Errata,
    /// The strip in Esperanto.
    Esperanto,
    /// The strip in English.
    English,
}

/// The name of each file of a post's folder.
pub open spec fn file_name(file: FolderFile) -> Seq<char> {
    match file {
        FolderFile::Title => "title"@,
        FolderFile::Errata => "errata"@,
        FolderFile::Esperanto => "esperanto.png"@,
        FolderFile::English => "english.png"@,
    }
}

/// Path of a file in the folder `path`, which ends in a slash.
pub fn folder_file(path: &str, file: FolderFile) -> (r: String)
    ensures
        r@ == path@ + file_name(file),
{
    let mut r: String = String::from_str(path);
    match file {
        FolderFile::Title => r.append("title"),
        FolderFile::Errata => r.append("errata"),
        FolderFile::Esperanto => r.append("esperanto.png"),
        FolderFile::English => r.append("english.png"),
    }
    r
}

/// The images to upload for the post in the folder `path`: the strip in
/// Esperanto, which must be there, and after it the English one where the
/// folder has it.
pub fn read_image_paths(path: &str, esperanto_exists: bool, english_exists: bool) -> (r: Vec<
    String,
>)
    requires
        esperanto_exists,
    ensures
        r@.len() == if english_exists { 2int } else { 1int },
        r@[0]@ == path@ + file_name(FolderFile::Esperanto),
        english_exists ==> r@[1]@ == path@ + file_name(FolderFile::English),
{
    let mut r: Vec<String> = Vec::new();
    r.push(folder_file(path, FolderFile::Esperanto));
    if english_exists {
        r.push(folder_file(path, FolderFile::English));
    }
    r
}

/// Where a folder goes once its post is published: every `/next` of its path
/// becomes `/done`.
pub open spec fn published_path(path: Seq<char>) -> Seq<char> {
    replaced(path, "/next"@, "/done"@)
}

/// The path to which the folder `path` moves after publication.
pub fn done_path(path: &str) -> (r: String)
    ensures
        r@ == published_path(path@),
{
    replace_all(path, "/next", "/done")
}

/// The folder of a post moves from `posts/next` to `posts/done` under its own
/// name, if that name holds no slash and does not begin with `next`.
pub proof fn lemma_published_post_path(index: Seq<char>)
    requires
        forall|i: int| 0 <= i < index.len() ==> index[i] != '/',
        index.len() >= 4 ==> index.subrange(0, 4) != "next"@,
    ensures
        published_path(folder_path(index)) == "posts/done/"@ + index + "/"@,
{
    reveal_strlit("posts/next");
    reveal_strlit("posts/done/");
    reveal_strlit("/next");
    reveal_strlit("/done");
    reveal_strlit("next");
    reveal_strlit("/");
    let from = "/next"@;
    let to = "/done"@;
    let path = folder_path(index);
    let n = path.len() as int;
    // Up to the first slash nothing is replaced.
    lemma_replaced_skips(path, from, to, 5);
    let at_next = path.subrange(5, n);
    assert(at_next.subrange(0, 5) =~= from);
    let at_index = at_next.subrange(5, at_next.len() as int);
    assert(at_index =~= "/"@ + index + "/"@);
    // The slash before the index begins no `/next`.
    let after_slash = at_index.subrange(1, at_index.len() as int);
    assert(after_slash =~= index + "/"@);
    if at_index.len() >= 5 {
        if index.len() >= 4 {
            assert(at_index.subrange(0, 5).subrange(1, 5) =~= index.subrange(0, 4));
            assert(from.subrange(1, 5) =~= "next"@);
        } else {
            assert(at_index.subrange(0, 5)[4] == '/');
            assert(from[4] == 't');
        }
        assert(at_index.subrange(0, 5) != from);
    }
    // The index holds no slash, and the last slash is too short.
    lemma_replaced_skips(after_slash, from, to, index.len() as int);
    assert(after_slash.subrange(index.len() as int, after_slash.len() as int) =~= "/"@);
    assert(after_slash.subrange(0, index.len() as int) =~= index);
    assert(replaced(after_slash, from, to) =~= after_slash);
    assert(replaced(at_index, from, to) =~= at_index);
    assert(path.subrange(0, 5) + (to + at_index) =~= "posts/done/"@ + index + "/"@);
}

/// The posts of a vector, each as its two texts.
pub open spec fn post_views(posts: Seq<Post>) -> Seq<PostView> {
    posts.map_values(|post: Post| post@)
}

/// The number by which a post is ordered: the one its index denotes. A post
/// whose index denotes none counts as -1; no queue of two or more posts holds
/// such a post.
pub open spec fn index_key(post: PostView) -> int {
    match parsed_u32(post.index) {
        Some(n) => n as int,
        None => -1,
    }
}

/// Whether every index of `posts` denotes a number.
pub open spec fn all_numbered(posts: Seq<PostView>) -> bool {
    forall|i: int| 0 <= i < posts.len() ==> parsed_u32(#[trigger] posts[i].index) is Some
}

/// Whether the numbers of `posts` never go down.
pub open spec fn ascending(posts: Seq<PostView>) -> bool {
    forall|i: int, j: int|
        0 <= i < j < posts.len() ==> index_key(#[trigger] posts[i]) <= index_key(
            #[trigger] posts[j],
        )
}

/// The posts of `posts` that bear the number `key`, in the order they have there.
pub open spec fn with_key(posts: Seq<PostView>, key: int) -> Seq<PostView> {
    posts.filter(|post: PostView| index_key(post) == key)
}

/// Whether `output` is `input` in the order of the queue: by ascending number,
/// and posts of one number in the order in which they came.
pub open spec fn is_queue_order(input: Seq<PostView>, output: Seq<PostView>) -> bool {
    &&& output.len() == input.len()
    &&& ascending(output)
    &&& forall|key: int| #[trigger] with_key(output, key) == with_key(input, key)
}

/// Selecting by number after appending a post.
proof fn lemma_with_key_push(posts: Seq<PostView>, post: PostView, key: int)
    ensures
        with_key(posts.push(post), key) == if index_key(post) == key {
            with_key(posts, key).push(post)
        } else {
            with_key(posts, key)
        },
{
    reveal(Seq::filter);
    assert(posts.push(post).drop_last() =~= posts);
}

/// No post of `posts` bears `key`: selecting by it gives nothing.
proof fn lemma_with_key_absent(posts: Seq<PostView>, key: int)
    requires
        forall|i: int| 0 <= i < posts.len() ==> index_key(posts[i]) != key,
    ensures
        with_key(posts, key) == Seq::<PostView>::empty(),
    decreases posts.len(),
{
    reveal(Seq::filter);
    if posts.len() > 0 {
        lemma_with_key_absent(posts.drop_last(), key);
    }
}

/// Selecting by number after inserting a post before posts of other numbers only.
proof fn lemma_with_key_insert(posts: Seq<PostView>, at: int, post: PostView, key: int)
    requires
        0 <= at <= posts.len(),
        forall|i: int| at <= i < posts.len() ==> index_key(posts[i]) != index_key(post),
    ensures
        with_key(posts.insert(at, post), key) == if index_key(post) == key {
            with_key(posts, key).push(post)
        } else {
            with_key(posts, key)
        },
{
    let select = |p: PostView| index_key(p) == key;
    let head = posts.subrange(0, at);
    let tail = posts.subrange(at, posts.len() as int);
    assert(posts.insert(at, post) =~= head.push(post) + tail);
    assert(posts =~= head + tail);
    Seq::filter_distributes_over_add(head.push(post), tail, select);
    Seq::filter_distributes_over_add(head, tail, select);
    lemma_with_key_push(head, post, key);
    if index_key(post) == key {
        lemma_with_key_absent(tail, key);
        assert(with_key(head, key).push(post) + Seq::<PostView>::empty() =~= (with_key(head, key)
            + Seq::<PostView>::empty()).push(post));
    }
}

/// The posts of an ascending sequence that bear the number of its last post
/// end with that post, and no post bears a greater number.
proof fn lemma_last_key(posts: Seq<PostView>, key: int)
    requires
        posts.len() > 0,
        ascending(posts),
    ensures
        key > index_key(posts.last()) ==> with_key(posts, key).len() == 0,
        key == index_key(posts.last()) ==> with_key(posts, key) == with_key(
            posts.drop_last(),
            key,
        ).push(posts.last()),
        key != index_key(posts.last()) ==> with_key(posts, key) == with_key(
            posts.drop_last(),
            key,
        ),
{
    assert(posts.drop_last().push(posts.last()) =~= posts);
    lemma_with_key_push(posts.drop_last(), posts.last(), key);
    if key > index_key(posts.last()) {
        assert forall|i: int| 0 <= i < posts.len() implies index_key(posts[i]) != key by {
            if i < posts.len() - 1 {
                assert(index_key(posts[i]) <= index_key(posts[posts.len() - 1]));
            }
        }
        lemma_with_key_absent(posts, key);
    }
}

/// The order of the queue is one order: whatever is in queue order for an
/// input is the same sequence.
pub proof fn lemma_queue_order_unique(input: Seq<PostView>, a: Seq<PostView>, b: Seq<PostView>)
    requires
        is_queue_order(input, a),
        is_queue_order(input, b),
    ensures
        a == b,
    decreases input.len(),
{
    if input.len() == 0 {
        assert(a =~= b);
    } else {
        let x = a.last();
        let y = b.last();
        let kx = index_key(x);
        let ky = index_key(y);
        assert(with_key(a, kx) == with_key(b, kx));
        assert(with_key(a, ky) == with_key(b, ky));
        lemma_last_key(a, kx);
        lemma_last_key(a, ky);
        lemma_last_key(b, kx);
        lemma_last_key(b, ky);
        assert(kx == ky);
        assert(with_key(a, kx).last() == x);
        assert(with_key(b, kx).last() == y);
        assert(x == y);
        let shorter = a.drop_last();
        assert(ascending(shorter)) by {
            assert forall|i: int, j: int| 0 <= i < j < shorter.len() implies index_key(
                #[trigger] shorter[i],
            ) <= index_key(#[trigger] shorter[j]) by {
                assert(index_key(a[i]) <= index_key(a[j]));
            }
        }
        assert(ascending(b.drop_last())) by {
            assert forall|i: int, j: int| 0 <= i < j < b.drop_last().len() implies index_key(
                #[trigger] b.drop_last()[i],
            ) <= index_key(#[trigger] b.drop_last()[j]) by {
                assert(index_key(b[i]) <= index_key(b[j]));
            }
        }
        assert forall|key: int| #[trigger]
            with_key(b.drop_last(), key) == with_key(shorter, key) by {
            lemma_last_key(a, key);
            lemma_last_key(b, key);
            assert(with_key(a, key) == with_key(b, key));
            if key == kx {
                assert(with_key(shorter, key) =~= with_key(a, key).drop_last());
                assert(with_key(b.drop_last(), key) =~= with_key(b, key).drop_last());
            }
        }
        lemma_queue_order_unique(shorter, shorter, b.drop_last());
        assert(a =~= shorter.push(x));
        assert(b =~= b.drop_last().push(y));
    }
}

/// A post stands as often among the posts of its number as among all.
proof fn lemma_with_key_count(posts: Seq<PostView>, post: PostView)
    ensures
        with_key(posts, index_key(post)).to_multiset().count(post) == posts.to_multiset().count(
            post,
        ),
    decreases posts.len(),
{
    broadcast use vstd::multiset::group_multiset_axioms;

    let key = index_key(post);
    if posts.len() == 0 {
        lemma_with_key_absent(posts, key);
        assert(posts =~= Seq::<PostView>::empty());
    } else {
        let rest = posts.drop_last();
        let last = posts.last();
        assert(rest.push(last) =~= posts);
        lemma_with_key_count(rest, post);
        lemma_with_key_push(rest, last, key);
        vstd::seq_lib::to_multiset_build(rest, last);
        assert(posts.to_multiset() == rest.to_multiset().insert(last));
        if index_key(last) == key {
            vstd::seq_lib::to_multiset_build(with_key(rest, key), last);
            assert(with_key(posts, key).to_multiset() == with_key(rest, key).to_multiset().insert(
                last,
            ));
        } else {
            assert(last != post);
            assert(with_key(posts, key) == with_key(rest, key));
        }
    }
}

/// The queue holds the posts that came in, each as often as it came.
pub proof fn lemma_queue_order_permutes(input: Seq<PostView>, output: Seq<PostView>)
    requires
        is_queue_order(input, output),
    ensures
        output.to_multiset() == input.to_multiset(),
{
    assert forall|post: PostView|
        output.to_multiset().count(post) == input.to_multiset().count(post) by {
        lemma_with_key_count(input, post);
        lemma_with_key_count(output, post);
        assert(with_key(output, index_key(post)) == with_key(input, index_key(post)));
    }
    assert(output.to_multiset() =~= input.to_multiset());
}

/// Reads the number of each post, or gives the position of the first post
/// whose index denotes none.
fn index_keys(posts: &Vec<Post>) -> (r: Result<Vec<u32>, usize>)
    ensures
        match r {
            Ok(keys) => {
                &&& keys@.len() == posts@.len()
                &&& forall|i: int|
                    0 <= i < posts@.len() ==> parsed_u32(#[trigger] posts@[i]@.index) == Some(
                        keys@[i],
                    )
            },
            Err(at) => {
                &&& at < posts@.len()
                &&& parsed_u32(posts@[at as int]@.index) is None
                &&& forall|i: int| 0 <= i < at ==> parsed_u32(#[trigger] posts@[i]@.index) is Some
            },
        },
{
    let mut keys: Vec<u32> = Vec::new();
    let mut i: usize = 0;
    while i < posts.len()
        invariant
            i <= posts@.len(),
            keys@.len() == i,
            forall|j: int|
                0 <= j < i ==> parsed_u32(#[trigger] posts@[j]@.index) == Some(keys@[j]),
        decreases posts.len() - i,
    {
        match parse_u32(posts[i].index.as_str()) {
            Some(key) => keys.push(key),
            None => return Err(i),
        }
        i = i + 1;
    }
    Ok(keys)
}

/// Orders posts whose numbers are `keys`.
fn order_by_keys(posts: Vec<Post>, keys: &Vec<u32>) -> (r: Vec<Post>)
    requires
        keys@.len() == posts@.len(),
        forall|i: int| 0 <= i < posts@.len() ==> index_key(#[trigger] posts@[i]@) == keys@[i],
    ensures
        is_queue_order(post_views(posts@), post_views(r@)),
{
    let ghost input: Seq<PostView> = post_views(posts@);
    let mut sorted: Vec<Post> = Vec::new();
    let mut sorted_keys: Vec<u32> = Vec::new();
    assert(post_views(sorted@) =~= input.subrange(0, 0));
    for post in it: posts
        invariant
            it.seq() == posts@,
            input == post_views(posts@),
            keys@.len() == posts@.len(),
            forall|i: int| 0 <= i < posts@.len() ==> index_key(#[trigger] posts@[i]@) == keys@[i],
            sorted@.len() == it.index(),
            sorted_keys@.len() == it.index(),
            forall|i: int|
                0 <= i < sorted@.len() ==> index_key(#[trigger] sorted@[i]@) == sorted_keys@[i],
            forall|i: int, j: int|
                0 <= i < j < sorted_keys@.len() ==> sorted_keys@[i] <= sorted_keys@[j],
            forall|key: int| #[trigger]
                with_key(post_views(sorted@), key) == with_key(
                    input.subrange(0, it.index() as int),
                    key,
                ),
    {
        let k: usize = sorted.len();
        let key: u32 = keys[k];
        let mut at: usize = sorted_keys.len();
        while at > 0 && sorted_keys[at - 1] > key
            invariant
                at <= sorted_keys@.len(),
                forall|i: int| at <= i < sorted_keys@.len() ==> sorted_keys@[i] > key,
            decreases at,
        {
            at = at - 1;
        }
        proof {
            let before = post_views(sorted@);
            let seen = input.subrange(0, k as int);
            assert(seen.push(post@) =~= input.subrange(0, k + 1));
            assert(post_views(sorted@.insert(at as int, post)) =~= before.insert(
                at as int,
                post@,
            ));
            assert forall|key: int| #[trigger]
                with_key(before.insert(at as int, post@), key) == with_key(
                    seen.push(post@),
                    key,
                ) by {
                lemma_with_key_insert(before, at as int, post@, key);
                lemma_with_key_push(seen, post@, key);
            }
        }
        sorted.insert(at, post);
        sorted_keys.insert(at, key);
    }
    proof {
        assert(input.subrange(0, input.len() as int) =~= input);
        let output = post_views(sorted@);
        assert forall|i: int, j: int| 0 <= i < j < output.len() implies index_key(
            #[trigger] output[i],
        ) <= index_key(#[trigger] output[j]) by {
            assert(index_key(sorted@[i]@) == sorted_keys@[i]);
            assert(index_key(sorted@[j]@) == sorted_keys@[j]);
        }
    }
    sorted
}

/// Why a directory of folders gives no queue. Each reason names the place of
/// the folder at fault, counted from zero in the order in which the folders
/// were handed over.
#[derive(Debug, Clone, Copy, PartialEq, Eq, Structural)]
pub enum QueueError {
    /// The folder holds an errata file.
    Errata(usize),
    /// The folder lacks the strip in Esperanto.
    NoEsperanto(usize),
    /// The folder lacks the strip in English.
    NoEnglish(usize),
    /// The folder's name denotes no number, so it has no place in the order.
    BadIndex(usize),
}

/// The place of the folder that an error names.
pub open spec fn place(error: QueueError) -> int {
    match error {
        QueueError::Errata(at) => at as int,
        QueueError::NoEsperanto(at) => at as int,
        QueueError::NoEnglish(at) => at as int,
        QueueError::BadIndex(at) => at as int,
    }
}

/// Whether `posts` can be ordered: fewer than two posts need no order, and of
/// two or more every index must denote a number.
pub open spec fn sortable(posts: Seq<PostView>) -> bool {
    posts.len() >= 2 ==> all_numbered(posts)
}

/// Whether `at` is the place of the first post of `posts` whose index denotes
/// no number.
pub open spec fn first_unnumbered(posts: Seq<PostView>, at: int) -> bool {
    &&& 0 <= at < posts.len()
    &&& parsed_u32(posts[at].index) is None
    &&& forall|i: int| 0 <= i < at ==> parsed_u32(#[trigger] posts[i].index) is Some
}

/// Puts posts in the order of the queue: by ascending number, posts of one
/// number in the order in which they came. Fewer than two posts are handed
/// back as they are. Of two or more, every index must denote a number: the
/// error names the first that does not.
pub fn sort_posts(posts: Vec<Post>) -> (r: Result<Vec<Post>, QueueError>)
    ensures
        r is Ok <==> sortable(post_views(posts@)),
        match r {
            Ok(sorted) => is_queue_order(post_views(posts@), post_views(sorted@)),
            Err(error) => error is BadIndex && first_unnumbered(post_views(posts@), place(error)),
        },
{
    let ghost input: Seq<PostView> = post_views(posts@);
    if posts.len() < 2 {
        return Ok(posts);
    }
    match index_keys(&posts) {
        Ok(keys) => {
            assert forall|i: int| 0 <= i < input.len() implies parsed_u32(
                #[trigger] input[i].index,
            ) is Some by {
                assert(parsed_u32(posts@[i]@.index) == Some(keys@[i]));
            }
            Ok(order_by_keys(posts, &keys))
        },
        Err(at) => {
            assert(parsed_u32(input[at as int].index) is None);
            assert forall|i: int| 0 <= i < at implies parsed_u32(
                #[trigger] input[i].index,
            ) is Some by {
                assert(parsed_u32(posts@[i]@.index) is Some);
            }
            Err(QueueError::BadIndex(at))
        },
    }
}

/// What was found of one folder of the queue's directory.
#[derive(Debug, PartialEq, Eq)]
pub struct Folder {
    /// The folder's name.
    pub index: String,
    /// Content of its title file.
    pub title: String,
    /// Whether it holds an errata file.
    pub errata: bool,
    /// Whether it holds the strip in Esperanto.
    pub esperanto: bool,
    /// Whether it holds the strip in English.
    pub english: bool,
}

/// A folder as plain values.
pub ghost struct FolderView {
    pub index: Seq<char>,
    pub title: Seq<char>,
    pub errata: bool,
    pub esperanto: bool,
    pub english: bool,
}

impl View for Folder {
    type V = FolderView;

    open spec fn view(&self) -> FolderView {
        FolderView {
            index: self.index@,
            title: self.title@,
            errata: self.errata,
            esperanto: self.esperanto,
            english: self.english,
        }
    }
}

/// The folders of a vector, each as plain values.
pub open spec fn folder_views(folders: Seq<Folder>) -> Seq<FolderView> {
    folders.map_values(|folder: Folder| folder@)
}

/// The post that a folder holds.
pub open spec fn post_of(folder: FolderView) -> PostView {
    PostView { index: folder.index, title: folder.title }
}

/// The posts that folders hold, folder by folder.
pub open spec fn posts_of(folders: Seq<FolderView>) -> Seq<PostView> {
    folders.map_values(|folder: FolderView| post_of(folder))
}

/// What is wrong with the files of the folder at place `at`, if anything: it
/// must hold no errata file, and both strips. The first of these that fails
/// is the fault.
pub open spec fn fault(folder: FolderView, at: usize) -> Option<QueueError> {
    if folder.errata {
        Some(QueueError::Errata(at))
    } else if !folder.esperanto {
        Some(QueueError::NoEsperanto(at))
    } else if !folder.english {
        Some(QueueError::NoEnglish(at))
    } else {
        None
    }
}

/// Whether no folder of `folders` has a fault.
pub open spec fn complete(folders: Seq<FolderView>) -> bool {
    forall|i: int| 0 <= i < folders.len() ==> fault(#[trigger] folders[i], i as usize) is None
}

/// Whether `error` is the reason for which `folders` give no queue: the fault
/// of the first folder that has one; or, where no folder has a fault, the
/// first index that denotes no number, among two folders or more.
pub open spec fn rejects(folders: Seq<FolderView>, error: QueueError) -> bool {
    let at = place(error);
    &&& 0 <= at < folders.len()
    &&& if error is BadIndex {
        &&& complete(folders)
        &&& folders.len() >= 2
        &&& first_unnumbered(posts_of(folders), at)
    } else {
        &&& fault(folders[at], at as usize) == Some(error)
        &&& forall|i: int| 0 <= i < at ==> fault(#[trigger] folders[i], i as usize) is None
    }
}

/// The fault of the folder at place `at`, if it has one.
pub fn folder_fault(folder: &Folder, at: usize) -> (r: Option<QueueError>)
    ensures
        r == fault(folder@, at),
{
    if folder.errata {
        Some(QueueError::Errata(at))
    } else if !folder.esperanto {
        Some(QueueError::NoEsperanto(at))
    } else if !folder.english {
        Some(QueueError::NoEnglish(at))
    } else {
        None
    }
}

/// Builds the queue from the folders found in its directory: every folder is
/// checked for its files, in the order given, and the posts are then put in
/// the order of their numbers.
pub fn parse_posts(folders: Vec<Folder>) -> (r: Result<Vec<Post>, QueueError>)
    ensures
        r is Ok <==> complete(folder_views(folders@)) && sortable(
            posts_of(folder_views(folders@)),
        ),
        match r {
            Ok(posts) => is_queue_order(posts_of(folder_views(folders@)), post_views(posts@)),
            Err(error) => rejects(folder_views(folders@), error),
        },
{
    let ghost found: Seq<FolderView> = folder_views(folders@);
    let mut i: usize = 0;
    while i < folders.len()
        invariant
            i <= folders@.len(),
            found == folder_views(folders@),
            forall|j: int| 0 <= j < i ==> fault(#[trigger] found[j], j as usize) is None,
        decreases folders.len() - i,
    {
        match folder_fault(&folders[i], i) {
            Some(error) => {
                assert(fault(found[i as int], i) == Some(error));
                return Err(error);
            },
            None => {},
        }
        i = i + 1;
    }
    let mut posts: Vec<Post> = Vec::new();
    for folder in it: folders
        invariant
            it.seq() == folders@,
            found == folder_views(folders@),
            post_views(posts@) == posts_of(found).subrange(0, it.index() as int),
    {
        let ghost before: Seq<PostView> = post_views(posts@);
        posts.push(Post { index: folder.index, title: folder.title });
        assert(post_views(posts@) =~= before.push(post_of(folder@)));
        assert(post_views(posts@) =~= posts_of(found).subrange(0, it.index() + 1));
    }
    assert(posts_of(found).subrange(0, found.len() as int) =~= posts_of(found));
    sort_posts(posts)
}

} // verus!

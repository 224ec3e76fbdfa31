//! Commit objects: the tree they record, their parents and a comment, and the
//! command-line arguments that name them.
use vstd::prelude::*;
use vstd::string::*;
use vstd::utf8::*;

use crate::constants::{
    AUTHOR_EMAIL, AUTHOR_NAME, AUTHOR_SURNAME, COMMITER_EMAIL, COMMITER_NAME, COMMITER_SURNAME,
};
use crate::constants::DEFAULT_COMMENT;
use crate::external::{debug_string, debug_text};
use crate::hex::{decode_hex_sha1, hex_scan_breaks, lemma_ascii_utf8, try_hex_to_sha1};
use crate::encoding::{decimal_value, is_canonical_decimal};
use crate::object::{
    size_field,
    commit_kind, frame_placeholder_buffer, framed, header_kind, lemma_framed_parts, object_body,
    object_header,
};

verus! {

/// Appends the UTF-8 bytes of a string.
fn push_str(buf: &mut Vec<u8>, s: &str)
    ensures
        final(buf)@ == old(buf)@ + s.spec_bytes(),
{
    buf.extend_from_slice(s.as_bytes());
}

/// The line naming one parent: `parent: ` and its quoted name.
pub open spec fn parent_line(p: Seq<char>) -> Seq<u8> {
    "parent: ".spec_bytes() + encode_utf8(debug_text(p)) + "\n".spec_bytes()
}

/// The parent lines, in order.
pub open spec fn parent_lines(ps: Seq<Seq<char>>) -> Seq<u8>
    decreases ps.len(),
{
    if ps.len() == 0 {
        seq![]
    } else {
        parent_lines(ps.drop_last()) + parent_line(ps.last())
    }
}

/// The author and committer lines and the blank line that ends them.
pub open spec fn signature_lines() -> Seq<u8> {
    "author: ".spec_bytes() + AUTHOR_EMAIL.spec_bytes() + " ".spec_bytes()
        + AUTHOR_NAME.spec_bytes() + " ".spec_bytes() + AUTHOR_SURNAME.spec_bytes()
        + "\n".spec_bytes() + "commiter: ".spec_bytes() + COMMITER_EMAIL.spec_bytes()
        + " ".spec_bytes() + COMMITER_NAME.spec_bytes() + " ".spec_bytes()
        + COMMITER_SURNAME.spec_bytes() + "\n\n".spec_bytes()
}

/// The body of a commit: the quoted tree name, the parent lines, the
/// signature lines, then the comment.
pub open spec fn commit_body(tree: Seq<char>, parents: Seq<Seq<char>>, comment: Seq<char>) -> Seq<
    u8,
> {
    "tree: ".spec_bytes() + encode_utf8(debug_text(tree)) + "\n".spec_bytes() + parent_lines(
        parents,
    ) + signature_lines() + encode_utf8(comment)
}

/// The commit object. Its header counts the body and the zero byte that
/// precedes it.
pub open spec fn commit_object(tree: Seq<char>, parents: Seq<Seq<char>>, comment: Seq<char>) -> Seq<
    u8,
> {
    framed(
        commit_kind(),
        commit_body(tree, parents, comment).len() + 1,
        commit_body(tree, parents, comment),
    )
}


/// The names of the parents, as character sequences.
pub open spec fn parent_names(parents: Seq<String>) -> Seq<Seq<char>> {
    parents.map_values(|p: String| p@)
}

/// Appends the author and committer lines and the blank line after them.
fn push_signature_lines(buf: &mut Vec<u8>)
    ensures
        final(buf)@ == old(buf)@ + signature_lines(),
{
    let ghost start = buf@;
    push_str(buf, "author: ");
    push_str(buf, AUTHOR_EMAIL);
    push_str(buf, " ");
    push_str(buf, AUTHOR_NAME);
    push_str(buf, " ");
    push_str(buf, AUTHOR_SURNAME);
    push_str(buf, "\n");
    push_str(buf, "commiter: ");
    push_str(buf, COMMITER_EMAIL);
    push_str(buf, " ");
    push_str(buf, COMMITER_NAME);
    push_str(buf, " ");
    push_str(buf, COMMITER_SURNAME);
    push_str(buf, "\n\n");
    assert(buf@ =~= start + signature_lines());
}

/// Appends the parent lines.
fn push_parent_lines(buf: &mut Vec<u8>, parents: &[String])
    ensures
        final(buf)@ == old(buf)@ + parent_lines(parent_names(parents@)),
{
    let ghost head = buf@;
    let mut i: usize = 0;
    assert(parent_names(parents@.take(0)) =~= seq![]);
    assert(head =~= head + parent_lines(parent_names(parents@.take(0))));
    while i < parents.len()
        invariant
            i <= parents@.len(),
            buf@ == head + parent_lines(parent_names(parents@.take(i as int))),
        decreases parents@.len() - i,
    {
        let ghost before = buf@;
        push_str(buf, "parent: ");
        let q = debug_string(parents[i].as_str());
        push_str(buf, q.as_str());
        push_str(buf, "\n");
        proof {
            let names = parent_names(parents@.take(i + 1));
            assert(names.drop_last() =~= parent_names(parents@.take(i as int)));
            assert(names.last() == parents@[i as int]@);
            assert(buf@ =~= head + parent_lines(names));
        }
        i = i + 1;
    }
    assert(parents@.take(i as int) =~= parents@);
}

/// The content of the commit object for a tree, its parents in order, and a
/// comment.
pub fn build_commit_object(tree: &str, parents: &[String], comment: &str) -> (res: Vec<u8>)
    ensures
        res@ == commit_object(tree@, parent_names(parents@), comment@),
        header_kind(object_header(res@)) == commit_kind(),
        object_body(res@) == commit_body(tree@, parent_names(parents@), comment@),
        is_canonical_decimal(size_field(res@)),
        decimal_value(size_field(res@)) == object_body(res@).len() + 1,
{
    proof {
        lemma_commit_object_reads_back(tree@, parent_names(parents@), comment@);
    }
    let mut buffer: Vec<u8> = vec![0u8; 41];
    let ghost zeros = buffer@;
    push_str(&mut buffer, "tree: ");
    let quoted = debug_string(tree);
    push_str(&mut buffer, quoted.as_str());
    push_str(&mut buffer, "\n");
    push_parent_lines(&mut buffer, parents);
    push_signature_lines(&mut buffer);
    push_str(&mut buffer, comment);
    assert(buffer@.skip(41) =~= commit_body(tree@, parent_names(parents@), comment@));
    let mut kind: Vec<u8> = Vec::new();
    kind.push(99u8);
    kind.push(111u8);
    kind.push(109u8);
    kind.push(109u8);
    kind.push(105u8);
    kind.push(116u8);
    assert(kind@ =~= commit_kind());
    frame_placeholder_buffer(&mut buffer, kind.as_slice())
}


/// Why the arguments of `commit-tree` are refused.
#[derive(Debug, PartialEq, Eq, Structural, Clone, Copy)]
pub enum CommitArgsError {
    /// No tree is named.
    MissingTree,
    /// Reading the tree's hexadecimal name would cut it outside its bounds or
    /// inside a character.
    TreeOutOfBounds,
    /// The tree's name is not 20 hexadecimal pairs.
    BadTree,
    /// `-p` is the last argument.
    MissingParent,
    /// Reading a parent's hexadecimal name would cut it outside its bounds or
    /// inside a character.
    ParentOutOfBounds,
    /// A parent's name is not 20 hexadecimal pairs.
    BadParent,
    /// `-m` is the last argument.
    MissingComment,
    /// An argument is neither `-p` nor `-m`.
    UnknownFlag,
}

/// What `commit-tree` is asked to record.
#[derive(Debug)]
pub struct CommitArgs {
    /// Hexadecimal name of the tree, as given.
    pub tree: String,
    /// Hexadecimal names of the parents, in the order given.
    pub parents: Vec<String>,
    /// The comment.
    pub comment: String,
}

/// The argument is the flag `-c`.
pub open spec fn is_flag(a: Seq<char>, c: char) -> bool {
    a == seq!['-', c]
}

/// The argument is a usable hexadecimal name: `None` when it is one, else the
/// error (out of bounds, or not a name).
pub open spec fn name_check(
    a: Seq<char>,
    out_of_bounds: CommitArgsError,
    bad: CommitArgsError,
) -> Option<CommitArgsError> {
    if hex_scan_breaks(encode_utf8(a)) {
        Some(out_of_bounds)
    } else if decode_hex_sha1(encode_utf8(a)) is None {
        Some(bad)
    } else {
        None
    }
}

/// Reads the flags from position `i` on, with the parents and the comment
/// gathered so far.
pub open spec fn scan_flags(
    args: Seq<Seq<char>>,
    i: int,
    parents: Seq<Seq<char>>,
    comment: Seq<char>,
) -> Result<(Seq<Seq<char>>, Seq<char>), CommitArgsError>
    decreases args.len() - i,
{
    if i >= args.len() || i < 0 {
        Ok((parents, comment))
    } else if is_flag(args[i], 'p') {
        if i + 1 >= args.len() {
            Err(CommitArgsError::MissingParent)
        } else {
            match name_check(
                args[i + 1],
                CommitArgsError::ParentOutOfBounds,
                CommitArgsError::BadParent,
            ) {
                Some(e) => Err(e),
                None => scan_flags(args, i + 2, parents.push(args[i + 1]), comment),
            }
        }
    } else if is_flag(args[i], 'm') {
        if i + 1 >= args.len() {
            Err(CommitArgsError::MissingComment)
        } else {
            scan_flags(args, i + 2, parents, args[i + 1])
        }
    } else {
        Err(CommitArgsError::UnknownFlag)
    }
}

/// What the arguments of `commit-tree` ask for: the tree (argument 2), then
/// `-p parent` and `-m comment` in any order; the comment defaults to
/// `Empty comment`, and a later `-m` replaces an earlier one.
pub open spec fn commit_args(args: Seq<Seq<char>>) -> Result<
    (Seq<char>, Seq<Seq<char>>, Seq<char>),
    CommitArgsError,
> {
    if args.len() < 3 {
        Err(CommitArgsError::MissingTree)
    } else {
        match name_check(args[2], CommitArgsError::TreeOutOfBounds, CommitArgsError::BadTree) {
            Some(e) => Err(e),
            None => match scan_flags(args, 3, seq![], DEFAULT_COMMENT@) {
                Ok((ps, c)) => Ok((args[2], ps, c)),
                Err(e) => Err(e),
            },
        }
    }
}

/// The argument is the two-character flag `-` followed by `c`.
fn flag_is(arg: &str, c: u8) -> (res: bool)
    requires
        c < 128,
    ensures
        res == is_flag(arg@, c as char),
{
    let b = arg.as_bytes();
    let res = b.len() == 2 && b[0] == 45 && b[1] == c;
    proof {
        let two = seq![45u8, c];
        lemma_ascii_utf8(two);
        encode_utf8_decode_utf8(arg@);
        assert(crate::hex::ascii_chars(two) =~= seq!['-', c as char]);
        if res {
            assert(b@ =~= two);
        }
        if is_flag(arg@, c as char) {
            assert(b@ == encode_utf8(seq!['-', c as char]));
        }
    }
    res
}

/// Checks a hexadecimal name as `hex_to_sha1` reads it.
fn check_name(a: &str, out_of_bounds: CommitArgsError, bad: CommitArgsError) -> (res: Option<
    CommitArgsError,
>)
    ensures
        res == name_check(a@, out_of_bounds, bad),
{
    match try_hex_to_sha1(a) {
        None => Some(out_of_bounds),
        Some(Err(_)) => Some(bad),
        Some(Ok(_)) => None,
    }
}

/// Reads the arguments of `commit-tree` (the whole command line, the tree's
/// name at position 2).
pub fn parse_commit_args(args: &[String]) -> (res: Result<CommitArgs, CommitArgsError>)
    ensures
        res matches Ok(a) ==> commit_args(args@.map_values(|s: String| s@)) == Ok::<
            (Seq<char>, Seq<Seq<char>>, Seq<char>),
            CommitArgsError,
        >((a.tree@, a.parents@.map_values(|s: String| s@), a.comment@)),
        res matches Err(e) ==> commit_args(args@.map_values(|s: String| s@)) == Err::<
            (Seq<char>, Seq<Seq<char>>, Seq<char>),
            CommitArgsError,
        >(e),
{
    let ghost av = args@.map_values(|s: String| s@);
    if args.len() < 3 {
        return Err(CommitArgsError::MissingTree);
    }
    match check_name(
        args[2].as_str(),
        CommitArgsError::TreeOutOfBounds,
        CommitArgsError::BadTree,
    ) {
        Some(e) => {
            return Err(e);
        },
        None => {},
    }
    let mut parents: Vec<String> = Vec::new();
    let mut comment = String::from_str(DEFAULT_COMMENT);
    let mut i: usize = 3;
    assert(parents@.map_values(|s: String| s@) =~= seq![]);
    while i < args.len()
        invariant
            3 <= i,
            av == args@.map_values(|s: String| s@),
            av.len() >= 3,
            name_check(av[2], CommitArgsError::TreeOutOfBounds, CommitArgsError::BadTree) is None,
            scan_flags(av, 3, seq![], DEFAULT_COMMENT@) == scan_flags(
                av,
                i as int,
                parents@.map_values(|s: String| s@),
                comment@,
            ),
        decreases args@.len() - i,
    {
        let arg = args[i].as_str();
        assert(arg@ == av[i as int]);
        if flag_is(arg, 112u8) {
            if i + 1 >= args.len() {
                return Err(CommitArgsError::MissingParent);
            }
            let sha = args[i + 1].as_str();
            assert(sha@ == av[i + 1]);
            match check_name(sha, CommitArgsError::ParentOutOfBounds, CommitArgsError::BadParent) {
                Some(e) => {
                    return Err(e);
                },
                None => {},
            }
            let ghost before = parents@.map_values(|s: String| s@);
            parents.push(args[i + 1].clone());
            assert(parents@.map_values(|s: String| s@) =~= before.push(av[i + 1]));
            i = i + 2;
        } else if flag_is(arg, 109u8) {
            if i + 1 >= args.len() {
                return Err(CommitArgsError::MissingComment);
            }
            comment = args[i + 1].clone();
            i = i + 2;
        } else {
            return Err(CommitArgsError::UnknownFlag);
        }
    }
    let tree = args[2].clone();
    Ok(CommitArgs { tree, parents, comment })
}


/// Reading back a stored commit: its object is read as a `commit` whose body
/// is the commit's text.
pub proof fn lemma_commit_reads_back(tree: Seq<char>, parents: Seq<Seq<char>>, comment: Seq<char>)
    ensures
        header_kind(object_header(commit_object(tree, parents, comment))) == commit_kind(),
        object_body(commit_object(tree, parents, comment)) == commit_body(tree, parents, comment),
{
    let body = commit_body(tree, parents, comment);
    lemma_framed_parts(commit_kind(), body.len() + 1, body);
}


/// A commit counts its own body: the object is a `commit` whose header's size
/// reads back as the length of the body plus one, and whose body is the
/// commit's text.
pub proof fn lemma_commit_object_reads_back(
    tree: Seq<char>,
    parents: Seq<Seq<char>>,
    comment: Seq<char>,
)
    ensures
        header_kind(object_header(commit_object(tree, parents, comment))) == commit_kind(),
        object_body(commit_object(tree, parents, comment)) == commit_body(tree, parents, comment),
        is_canonical_decimal(size_field(commit_object(tree, parents, comment))),
        decimal_value(size_field(commit_object(tree, parents, comment))) == object_body(
            commit_object(tree, parents, comment),
        ).len() + 1,
        commit_kind() == seq![99u8, 111u8, 109u8, 109u8, 105u8, 116u8],
{
    let body = commit_body(tree, parents, comment);
    lemma_framed_parts(commit_kind(), body.len() + 1, body);
}

/// A commit without parents: the quoted tree line, then the author and
/// committer lines, then the comment.
pub proof fn lemma_commit_body_without_parents(tree: Seq<char>, comment: Seq<char>)
    ensures
        commit_body(tree, seq![], comment) == "tree: ".spec_bytes() + encode_utf8(debug_text(tree))
            + "\n".spec_bytes() + signature_lines() + encode_utf8(comment),
{
    assert(commit_body(tree, seq![], comment) =~= "tree: ".spec_bytes() + encode_utf8(
        debug_text(tree),
    ) + "\n".spec_bytes() + signature_lines() + encode_utf8(comment));
}

/// Each parent adds its own line: giving one more parent inserts exactly the
/// line `parent: `, its quoted name and a newline, after the lines of the
/// earlier parents and before the author and committer lines; nothing else
/// changes. With the case of no parents, this fixes one line per parent, in
/// the order given.
pub proof fn lemma_commit_body_add_parent(
    tree: Seq<char>,
    parents: Seq<Seq<char>>,
    p: Seq<char>,
    comment: Seq<char>,
)
    ensures
        ({
            let before = commit_body(tree, parents, comment);
            let tail = signature_lines() + encode_utf8(comment);
            &&& before.len() >= tail.len()
            &&& before.skip(before.len() - tail.len()) == tail
            &&& commit_body(tree, parents.push(p), comment) == before.take(
                before.len() - tail.len(),
            ) + ("parent: ".spec_bytes() + encode_utf8(debug_text(p)) + "\n".spec_bytes())
                + tail
        }),
{
    let head = "tree: ".spec_bytes() + encode_utf8(debug_text(tree)) + "\n".spec_bytes();
    let tail = signature_lines() + encode_utf8(comment);
    let before = commit_body(tree, parents, comment);
    assert(before =~= (head + parent_lines(parents)) + tail);
    assert(parents.push(p).drop_last() =~= parents);
    assert(parent_lines(parents.push(p)) == parent_lines(parents) + parent_line(p));
    assert(before.skip(before.len() - tail.len()) =~= tail);
    assert(before.take(before.len() - tail.len()) =~= head + parent_lines(parents));
    assert(commit_body(tree, parents.push(p), comment) =~= (head + parent_lines(parents))
        + parent_line(p) + tail);
}

} // verus!

//! Branches of a mirrored repository, as they are shown to users.

use vstd::prelude::*;
use vstd::string::*;

verus! {

/// A remote branch and the commit at its tip.
#[derive(Debug)]
pub struct BranchInfo {
    pub name: String,
    pub commit_hash: String,
    pub time: i64,
    pub message: Vec<String>,
}

/// What is read of a branch before it is put in shape: the bytes of the
/// name as the remote gives it, the commit's id and time, and the bytes of
/// the whole message.
#[derive(Debug)]
pub struct RawBranch {
    pub name: Vec<u8>,
    pub commit_hash: String,
    pub time: i64,
    pub message: Vec<u8>,
}

/// The text that bytes decode to as UTF-8, each invalid sequence replaced
/// by the replacement character.
pub uninterp spec fn utf8_lossy(bytes: Seq<u8>) -> Seq<char>;

/// Calls `String::from_utf8_lossy`. Trusted: the text is a function of the
/// bytes alone.
#[verifier::external_body]
fn decode_lossy(bytes: &[u8]) -> (r: String)
    ensures
        r@ == utf8_lossy(bytes@),
{
    String::from_utf8_lossy(bytes).into_owned()
}

/// The prefix that remote branches of `origin` carry: `origin/`.
pub open spec fn origin_prefix() -> Seq<char> {
    seq!['o', 'r', 'i', 'g', 'i', 'n', '/']
}

/// The name without the prefix `origin/`, where it has one.
pub open spec fn strip_origin(name: Seq<char>) -> Seq<char> {
    if name.len() >= 7 && name.take(7) == origin_prefix() {
        name.skip(7)
    } else {
        name
    }
}

/// The lines of the text from `start` on, read from `i`: each line feed ends
/// a line, and what follows the last one is a line unless it is empty.
pub open spec fn lines_from(t: Seq<char>, start: int, i: int) -> Seq<Seq<char>>
    decreases t.len() - i,
{
    if i < 0 || i >= t.len() {
        if 0 <= start < t.len() {
            seq![t.subrange(start, t.len() as int)]
        } else {
            Seq::<Seq<char>>::empty()
        }
    } else if t[i] == '\n' {
        seq![t.subrange(start, i)] + lines_from(t, i + 1, i + 1)
    } else {
        lines_from(t, start, i + 1)
    }
}

/// The lines of a text.
pub open spec fn lines_of(t: Seq<char>) -> Seq<Seq<char>> {
    lines_from(t, 0, 0)
}

pub open spec fn texts(list: Seq<String>) -> Seq<Seq<char>> {
    Seq::new(list.len(), |i: int| list[i]@)
}

/// `info` is the branch `raw` in the shape shown to users.
pub open spec fn describes(info: BranchInfo, raw: RawBranch) -> bool {
    info.name@ == strip_origin(utf8_lossy(raw.name@)) && info.commit_hash@ == raw.commit_hash@
        && info.time == raw.time && texts(info.message@) == lines_of(utf8_lossy(raw.message@))
}

/// The name of a branch without the prefix `origin/`.
pub fn strip_origin_prefix(name: &str) -> (r: String)
    ensures
        r@ == strip_origin(name@),
{
    let n: usize = name.unicode_len();
    if n < 7 {
        return name.to_owned();
    }
    let head = name.substring_char(0, 7);
    let same = head.get_char(0) == 'o' && head.get_char(1) == 'r' && head.get_char(2) == 'i'
        && head.get_char(3) == 'g' && head.get_char(4) == 'i' && head.get_char(5) == 'n'
        && head.get_char(6) == '/';
    if same {
        assert(name@.take(7) =~= origin_prefix());
        assert(name@.skip(7) =~= name@.subrange(7, n as int));
        name.substring_char(7, n).to_owned()
    } else {
        assert(name@.take(7) != origin_prefix()) by {
            if name@.take(7) == origin_prefix() {
                assert(forall|k: int| 0 <= k < 7 ==> name@.take(7)[k] == origin_prefix()[k]);
                assert(name@.take(7)[0] == 'o');
                assert(name@.take(7)[1] == 'r');
                assert(name@.take(7)[2] == 'i');
                assert(name@.take(7)[3] == 'g');
                assert(name@.take(7)[4] == 'i');
                assert(name@.take(7)[5] == 'n');
                assert(name@.take(7)[6] == '/');
            }
        }
        name.to_owned()
    }
}

/// The lines of a commit message.
pub fn message_lines(message: &str) -> (r: Vec<String>)
    ensures
        texts(r@) == lines_of(message@),
{
    let n: usize = message.unicode_len();
    let mut out: Vec<String> = Vec::new();
    let mut start: usize = 0;
    let mut i: usize = 0;
    assert(texts(out@) + lines_from(message@, 0, 0) =~= lines_of(message@));
    while i < n
        invariant
            start <= i <= n,
            n == message@.len(),
            texts(out@) + lines_from(message@, start as int, i as int) == lines_of(message@),
        decreases n - i,
    {
        if message.get_char(i) == '\n' {
            let ghost before = texts(out@);
            out.push(message.substring_char(start, i).to_owned());
            assert(texts(out@) =~= before + seq![message@.subrange(start as int, i as int)]);
            assert(texts(out@) + lines_from(message@, i + 1, i + 1) =~= before + (seq![
                message@.subrange(start as int, i as int),
            ] + lines_from(message@, i + 1, i + 1)));
            start = i + 1;
        }
        i += 1;
    }
    if start < n {
        let ghost before = texts(out@);
        out.push(message.substring_char(start, n).to_owned());
        assert(texts(out@) =~= before + seq![message@.subrange(start as int, n as int)]);
    } else {
        assert(texts(out@) + Seq::<Seq<char>>::empty() =~= texts(out@));
    }
    out
}

/// Puts a branch in the shape shown to users: name and message decoded,
/// the name without `origin/`, the message line by line.
pub fn get_branch_info(raw: RawBranch) -> (r: BranchInfo)
    ensures
        describes(r, raw),
{
    let full_name = decode_lossy(raw.name.as_slice());
    let text = decode_lossy(raw.message.as_slice());
    let name = strip_origin_prefix(full_name.as_str());
    let message = message_lines(text.as_str());
    BranchInfo { name, commit_hash: raw.commit_hash, time: raw.time, message }
}

/// The first `n` branches are read without error.
pub open spec fn all_ok<E>(raw: Seq<Result<RawBranch, E>>, from: int, n: int) -> bool {
    forall|k: int| from <= k < n && k < raw.len() ==> (#[trigger] raw[k]).is_ok()
}

/// The branches behind the first entry, which stands for `HEAD` and is not
/// shown. The first entry behind it that could not be read ends the listing
/// with its error.
pub fn list_branches<E>(raw: Vec<Result<RawBranch, E>>) -> (r: Result<Vec<BranchInfo>, E>)
    ensures
        match r {
            Ok(list) => all_ok(raw@, 1, raw@.len() as int) && list@.len() == (if raw@.len() == 0 {
                0int
            } else {
                raw@.len() - 1
            }) && forall|k: int|
                0 <= k < list@.len() ==> describes(#[trigger] list@[k], raw@[k + 1]->Ok_0),
            Err(e) => exists|k: int|
                1 <= k < raw@.len() && all_ok(raw@, 1, k) && #[trigger] raw@[k] == Err::<
                    RawBranch,
                    E,
                >(e),
        },
{
    let ghost all = raw@;
    let mut rest = raw;
    let mut out: Vec<BranchInfo> = Vec::new();
    if rest.len() == 0 {
        return Ok(out);
    }
    let _head = rest.remove(0);
    let ghost mut done: int = 1;
    assert(rest@ =~= all.skip(1));
    while rest.len() > 0
        invariant
            1 <= done <= all.len(),
            all == raw@,
            rest@ == all.skip(done),
            all_ok(all, 1, done),
            out@.len() == done - 1,
            forall|k: int| 0 <= k < out@.len() ==> describes(#[trigger] out@[k], all[k + 1]->Ok_0),
        decreases rest.len(),
    {
        let item = rest.remove(0);
        assert(item == all[done]);
        assert(rest@ =~= all.skip(done + 1));
        match item {
            Err(e) => {
                assert(1 <= done < all.len() && all_ok(all, 1, done) && all[done] == Err::<
                    RawBranch,
                    E,
                >(e));
                return Err(e);
            },
            Ok(b) => {
                out.push(get_branch_info(b));
            },
        }
        proof {
            done = done + 1;
        }
    }
    Ok(out)
}

} // verus!

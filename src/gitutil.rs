use vstd::prelude::*;

use vstd::utf8::{decode_utf8, valid_utf8};

verus! {

/// The text that `String::from_utf8_lossy` makes of `b`: each sequence that
/// is not well-formed UTF-8 becomes U+FFFD.
pub uninterp spec fn utf8_lossy(b: Seq<u8>) -> Seq<char>;

/// Relies on String::from_utf8_lossy: it decodes the bytes, replacing each
/// ill-formed sequence, and decodes well-formed UTF-8 exactly.
#[verifier::external_body]
fn decode_lossy(b: &Vec<u8>) -> (r: String)
    ensures
        r@ == utf8_lossy(b@),
        valid_utf8(b@) ==> r@ == decode_utf8(b@),
{
    String::from_utf8_lossy(b.as_slice()).into_owned()
}

pub open spec fn flush_field(cur: Seq<u8>) -> Seq<Seq<u8>> {
    if cur.len() == 0 {
        Seq::empty()
    } else {
        seq![cur]
    }
}

/// The zero-terminated fields of `b` from position `i` on, where `cur` holds
/// the bytes of the field under way. Empty fields are dropped, and so are
/// bytes after the last zero byte.
pub open spec fn fields_from(b: Seq<u8>, i: int, cur: Seq<u8>) -> Seq<Seq<u8>>
    decreases b.len() - i,
{
    if i >= b.len() {
        Seq::empty()
    } else if b[i] == 0 {
        flush_field(cur) + fields_from(b, i + 1, Seq::empty())
    } else {
        fields_from(b, i + 1, cur.push(b[i]))
    }
}

/// The file names in the output of `git ls-files -z`: the non-empty runs of
/// bytes that a zero byte ends.
pub open spec fn listed_names(out: Seq<u8>) -> Seq<Seq<u8>> {
    fields_from(out, 0, Seq::empty())
}

/// The absolute path of a listed name: the repository root, a slash, the name.
pub open spec fn listed_path(root: Seq<char>, name: Seq<u8>) -> Seq<char> {
    root + "/"@ + utf8_lossy(name)
}

fn join_root(root: &str, name: &str) -> (r: String)
    ensures
        r@ == root@ + "/"@ + name@,
{
    String::from_str(root).concat("/").concat(name)
}

/// The absolute paths of the files that `git ls-files -z`, run at the
/// repository root `git_root`, printed as `ls_files_output`, in order.
pub fn list_git_tracked_files(git_root: &str, ls_files_output: &Vec<u8>) -> (r: Vec<String>)
    ensures
        r@.len() == listed_names(ls_files_output@).len(),
        forall|k: int|
            0 <= k < r@.len() ==> #[trigger] r@[k]@ == listed_path(
                git_root@,
                listed_names(ls_files_output@)[k],
            ),
{
    let ghost b = ls_files_output@;
    let ghost names = listed_names(b);
    let ghost mut done: Seq<Seq<u8>> = Seq::empty();
    let mut files: Vec<String> = Vec::new();
    let mut cur: Vec<u8> = Vec::new();
    let n = ls_files_output.len();
    let mut i: usize = 0;
    while i < n
        invariant
            b == ls_files_output@,
            names == listed_names(b),
            n == b.len(),
            i <= n,
            names == done + fields_from(b, i as int, cur@),
            files@.len() == done.len(),
            forall|k: int|
                0 <= k < files@.len() ==> #[trigger] files@[k]@ == listed_path(git_root@, done[k]),
        decreases n - i,
    {
        if ls_files_output[i] == 0 {
            assert(fields_from(b, i as int, cur@) == flush_field(cur@) + fields_from(
                b,
                i + 1,
                Seq::empty(),
            ));
            if cur.len() > 0 {
                let name = decode_lossy(&cur);
                files.push(join_root(git_root, name.as_str()));
                proof {
                    let old_done = done;
                    done = done.push(cur@);
                    assert(old_done + flush_field(cur@) =~= done);
                }
            } else {
                assert(done + flush_field(cur@) =~= done);
            }
            cur = Vec::new();
        } else {
            let ghost before = cur@;
            cur.push(ls_files_output[i]);
            assert(cur@ =~= before.push(b[i as int]));
        }
        i = i + 1;
    }
    assert(names =~= done);
    files
}

} // verus!

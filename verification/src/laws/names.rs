//! What holds of the names of buckets and objects.

use crate::laws::buckets;
use crate::laws::ground;
use crate::paths;
use crate::places;
use crate::store::objects;
use vstd::prelude::*;
use vstd::utf8;

verus! {

/// A bucket name passes if and only if it is 3 to 63 lowercase letters, digits and
/// hyphens, with no hyphen at either end and no two side by side.
pub proof fn bucket_names_that_pass(name: Seq<char>)
    ensures
        paths::bucket_fault(name) is None <==> {
            &&& 3 <= name.len() <= 63
            &&& forall|i: int| 0 <= i < name.len() ==> paths::bucket_char(#[trigger] name[i])
            &&& name[0] != '-'
            &&& name.last() != '-'
            &&& !paths::doubles_hyphen(name)
        },
{
    if forall|i: int| 0 <= i < name.len() ==> paths::bucket_char(#[trigger] name[i]) {
        assert(utf8::is_ascii_chars(name)) by {
            assert forall|i: int| 0 <= i < name.len() implies '\0' <= #[trigger] name[i] <= '\u{7f}' by {
                assert(paths::bucket_char(name[i]));
            }
        }
        utf8::is_ascii_chars_encode_utf8(name);
        lemma_none_stray(name, 0);
    }
    if paths::bucket_fault(name) is None {
        ground::lemma_no_stray(name, 0);
    }
}

proof fn lemma_none_stray(name: Seq<char>, i: int)
    requires
        forall|k: int| 0 <= k < name.len() ==> paths::bucket_char(#[trigger] name[k]),
        0 <= i,
    ensures
        paths::stray_from(name, i) is None,
    decreases name.len() - i,
{
    if i < name.len() {
        assert(paths::bucket_char(name[i]));
        lemma_none_stray(name, i + 1);
    }
}

/// An object lies in its bucket with its sidecar, and its bucket under the base directory: no key
/// that passes leads anywhere else.
pub proof fn objects_lie_in_their_bucket(base: Seq<char>, bucket: Seq<char>, key: Seq<char>)
    requires
        paths::is_absolute(base),
        objects::name_fault(bucket, key) is None,
    ensures
        paths::lies_under(base, paths::object_file(base, bucket, key)),
        buckets::bucket_place(base, bucket).is_prefix_of(ground::body_place(base, bucket, key)),
        places::plain(paths::names(key)),
        buckets::bucket_place(base, bucket).is_prefix_of(ground::sidecar_place(base, bucket, key)),
{
    ground::lemma_places(base, bucket, key);
    let at = buckets::bucket_place(base, bucket);
    let body = ground::body_place(base, bucket, key);
    assert(body.subrange(0, at.len() as int) =~= at);
    ground::lemma_sidecar_name(base, bucket, key);
    let side = ground::sidecar_place(base, bucket, key);
    assert(side.subrange(0, at.len() as int) =~= at);
}

} // verus!

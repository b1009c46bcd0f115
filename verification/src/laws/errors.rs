//! What holds of the codes, the statuses and the messages of errors.

use crate::error::ErrorView;
use crate::laws::pages::opens;
use vstd::prelude::*;

verus! {

/// The status of an error goes by its code: 404 for what there is none of, 409 for a bucket
/// that stands in the way, 412 and 304 for the two answers to a condition, 500 for a
/// failure inside, and 400 for all that was asked for wrongly.
pub proof fn statuses_follow_the_codes(e: ErrorView)
    ensures
        e.http_status() == 404 <==> opens("NoSuch"@, e.code()),
        e.http_status() == 409 <==> opens("Bucket"@, e.code()),
        e.http_status() == 412 <==> e.code() == "PreconditionFailed"@,
        e.http_status() == 304 <==> e.code() == "NotModified"@,
        e.http_status() == 500 <==> e.code() == "InternalError"@,
        e.http_status() == 400 <==> opens("Invalid"@, e.code()) || e.code() == "PathEscape"@,
{
    reveal_strlit("NoSuch");
    reveal_strlit("Bucket");
    reveal_strlit("Invalid");
    reveal_strlit("NoSuchBucket");
    reveal_strlit("BucketAlreadyExists");
    reveal_strlit("BucketNotEmpty");
    reveal_strlit("InvalidBucketName");
    reveal_strlit("NoSuchKey");
    reveal_strlit("InvalidObjectKey");
    reveal_strlit("PreconditionFailed");
    reveal_strlit("NotModified");
    reveal_strlit("NoSuchUpload");
    reveal_strlit("InvalidPart");
    reveal_strlit("InvalidPartOrder");
    reveal_strlit("PathEscape");
    reveal_strlit("InternalError");
    let (n, b, i) = ("NoSuch"@, "Bucket"@, "Invalid"@);
    let c = e.code();
    assert(n[0] == 'N' && n[2] == 'S' && b[0] == 'B' && i[0] == 'I' && i[2] == 'v');
    assert(opens(n, c) ==> c[0] == n[0] && c[2] == n[2]);
    assert(opens(b, c) ==> c[0] == b[0]);
    assert(opens(i, c) ==> c[0] == i[0] && c[2] == i[2]);
    assert("NotModified"@[2] == 't' && "InternalError"@[2] == 't');
    assert("PreconditionFailed"@[1] == 'r' && "PathEscape"@[1] == 'a');
    assert("PreconditionFailed"@[0] == 'P' && "PathEscape"@[0] == 'P');
    assert("NotModified"@[0] == 'N' && "InternalError"@[0] == 'I');
}

/// The message of an error says what the store makes known of it, with the names that it
/// is about, and that of a failure inside ends with the text of the failure.
pub proof fn messages_say_what_is_wrong(e: ErrorView, detail: Seq<char>)
    ensures
        e is NoSuchBucket ==> e.message(detail) == "The specified bucket does not exist"@,
        e is NoSuchKey ==> e.message(detail) == "The specified key does not exist"@,
        e is NoSuchUpload ==> e.message(detail) == "The specified upload does not exist"@,
        e is BucketAlreadyExists ==> e.message(detail)
            == "The requested bucket name is not available"@,
        e is BucketNotEmpty ==> e.message(detail) == "The bucket you tried to delete is not empty"@,
        e is InvalidPart ==> e.message(detail)
            == "One or more of the specified parts could not be found"@,
        e is InvalidPartOrder ==> e.message(detail)
            == "The list of parts was not in ascending order"@,
        e is PreconditionFailed ==> e.message(detail)
            == "At least one of the pre-conditions you specified did not hold"@,
        e is NotModified ==> e.message(detail) == "The specified copy source is not modified"@,
        e matches ErrorView::InvalidBucketName { name, reason } ==> e.message(detail)
            == "Invalid bucket name '"@ + name + "': "@ + reason,
        e matches ErrorView::InvalidObjectKey { key, reason } ==> e.message(detail)
            == "Invalid object key '"@ + key + "': "@ + reason,
        e matches ErrorView::PathEscape { path, base } ==> e.message(detail) == "Path '"@ + path
            + "' escapes base directory '"@ + base + "'"@,
        e matches ErrorView::Internal(why) ==> e.message(detail) == "Internal error: "@ + why,
        e is Io ==> e.message(detail) == "I/O error: "@ + detail,
        e is Json ==> e.message(detail) == "Metadata serialization error: "@ + detail,
{
}

} // verus!

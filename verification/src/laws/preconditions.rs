//! What holds of the conditions on reads and writes.

use crate::conditions;
use crate::conditions::ConditionsView;
use crate::disk::{End, World};
use crate::error::ErrorView;
use crate::laws;
use crate::meta;
use crate::meta::MetaView;
use crate::store::objects;
use crate::store::objects::{GetObjectInput, PutObjectInput};
use crate::store::objects::ObjectView;
use crate::text;
use crate::text::Margin;
use vstd::prelude::*;

verus! {

/// The wildcard matches every ETag.
pub proof fn wildcard_matches_everything(etag: Seq<char>)
    ensures
        conditions::matches_etag("*"@, etag),
{
    reveal_strlit("*");
    let star = "*"@;
    assert(star.len() == 1 && star[0] == '*');
    reveal_with_fuel(text::without_front, 2);
    reveal_with_fuel(text::without_back, 2);
    assert(conditions::bare(star) == star);
}

proof fn lemma_front(s: Seq<char>, m: Margin, c: char)
    requires
        m.covers(c),
    ensures
        text::without_front(s.push(c), m) == (if text::without_front(s, m).len() == 0 {
            Seq::<char>::empty()
        } else {
            text::without_front(s, m).push(c)
        }),
    decreases s.len(),
{
    let t = s.push(c);
    if s.len() > 0 && m.covers(s[0]) {
        assert(t.drop_first() =~= s.drop_first().push(c));
        lemma_front(s.drop_first(), m, c);
    } else if s.len() == 0 {
        assert(t.drop_first() =~= Seq::<char>::empty());
        assert(text::without_front(Seq::<char>::empty(), m) =~= Seq::<char>::empty());
        assert(text::without_front(s, m).len() == 0);
    }
}

/// An ETag in quotes is the same ETag, unless it has space around it.
proof fn lemma_bare_quoted(s: Seq<char>)
    requires
        text::trimmed(s, Margin::Space) == s,
    ensures
        conditions::bare(meta::quoted(s)) == conditions::bare(s),
{
    let q = meta::quoted(s);
    assert(q[0] == '"' && q.last() == '"');
    assert(!Margin::Space.covers('"'));
    assert(text::trimmed(q, Margin::Space) == q);
    assert(q.drop_first() =~= s.push('"'));
    lemma_front(s, Margin::Quote, '"');
    let f = text::without_front(s, Margin::Quote);
    if f.len() > 0 {
        assert(f.push('"').drop_last() =~= f);
    } else {
        assert(f =~= Seq::<char>::empty());
    }
}

/// ETags may be given with or without double quotes around them.
pub proof fn quotes_do_not_matter(provided: Seq<char>, actual: Seq<char>)
    requires
        text::trimmed(provided, Margin::Space) == provided,
        text::trimmed(actual, Margin::Space) == actual,
    ensures
        conditions::matches_etag(meta::quoted(provided), actual) == conditions::matches_etag(
            provided,
            actual,
        ),
        conditions::matches_etag(provided, meta::quoted(actual)) == conditions::matches_etag(
            provided,
            actual,
        ),
{
    lemma_bare_quoted(provided);
    lemma_bare_quoted(actual);
}

/// On reads, `if_match` and `if_unmodified_since` come before `if_none_match` and
/// `if_modified_since`: where one of each kind fails, the answer is
/// `PreconditionFailed`.
pub proof fn failed_preconditions_come_first(m: MetaView, c: ConditionsView)
    ensures
        ({
            let failed = {
                ||| c.if_match is Some && !conditions::matches_etag(c.if_match->0, m.etag)
                ||| c.if_unmodified_since is Some && m.last_modified > c.if_unmodified_since->0
            };
            let unmodified = {
                ||| c.if_none_match is Some && conditions::matches_etag(
                    c.if_none_match->0,
                    m.etag,
                )
                ||| c.if_modified_since is Some && m.last_modified <= c.if_modified_since->0
            };
            conditions::read_fault(m, c) == (if failed {
                Some(ErrorView::PreconditionFailed)
            } else if unmodified {
                Some(ErrorView::NotModified)
            } else {
                None
            })
        }),
{
}

/// Without conditions everything may be read and written.
pub proof fn no_conditions_forbid_nothing(existing: Option<MetaView>, c: ConditionsView)
    requires
        c.is_empty(),
    ensures
        conditions::may_write(existing, c),
        existing is Some ==> conditions::read_fault(existing->0, c) is None,
{
}

/// The conditions of an atomic create: the object must not exist.
pub open spec fn is_create_only(c: ConditionsView) -> bool {
    &&& c.if_none_match == Some("*"@)
    &&& c.if_match is None
    &&& c.if_unmodified_since is None
}

/// An atomic create succeeds if and only if the object does not exist: where it is
/// held the create is refused with `PreconditionFailed`, where nothing is there it
/// does what a put without conditions does.
pub proof fn atomic_create_never_overwrites(
    w: World,
    base: Seq<char>,
    p: PutObjectInput,
    plain: PutObjectInput,
    object: ObjectView,
)
    requires
        laws::objects::is_addressed(w, base, p.bucket@, p.key@),
        is_create_only(p.conditions@),
        plain == (PutObjectInput { conditions: plain.conditions, ..p }),
        plain.conditions@.is_empty(),
    ensures
        laws::objects::holds(w, base, p.bucket@, p.key@, object) ==> w.run(
            objects::put_object_script(base, p),
        ) == End::<Seq<char>>::Refused(ErrorView::PreconditionFailed),
        laws::objects::is_absent(w, base, p.bucket@, p.key@) ==> w.run(
            objects::put_object_script(base, p),
        ) == w.run(objects::put_object_script(base, plain)),
{
    laws::objects::put_adds_the_object(w, base, p);
    laws::objects::put_adds_the_object(w, base, plain);
    wildcard_matches_everything(object.meta.etag);
}

/// Optimistic concurrency: a put under `if_match` does what a put without conditions
/// does where the object still has that ETag, and is refused with
/// `PreconditionFailed` where it has another one or is not there.
pub proof fn put_under_etag_needs_that_etag(
    w: World,
    base: Seq<char>,
    p: PutObjectInput,
    plain: PutObjectInput,
    object: ObjectView,
)
    requires
        laws::objects::is_addressed(w, base, p.bucket@, p.key@),
        p.conditions@.if_match is Some,
        p.conditions@.if_none_match is None,
        p.conditions@.if_unmodified_since is None,
        plain == (PutObjectInput { conditions: plain.conditions, ..p }),
        plain.conditions@.is_empty(),
    ensures
        laws::objects::holds(w, base, p.bucket@, p.key@, object) ==> w.run(
            objects::put_object_script(base, p),
        ) == (if conditions::matches_etag(p.conditions@.if_match->0, object.meta.etag) {
            w.run(objects::put_object_script(base, plain))
        } else {
            End::Refused(ErrorView::PreconditionFailed)
        }),
        laws::objects::is_absent(w, base, p.bucket@, p.key@) ==> w.run(
            objects::put_object_script(base, p),
        ) == End::<Seq<char>>::Refused(ErrorView::PreconditionFailed),
{
    laws::objects::put_adds_the_object(w, base, p);
    laws::objects::put_adds_the_object(w, base, plain);
}

/// Conditional get: an object is not given again under its own ETag.
pub proof fn known_objects_are_not_modified(
    w: World,
    base: Seq<char>,
    g: GetObjectInput,
    object: ObjectView,
)
    requires
        laws::objects::is_addressed(w, base, g.bucket@, g.key@),
        laws::objects::holds(w, base, g.bucket@, g.key@, object),
        objects::range_fits(g.range, object.body.len()),
        g.conditions@.if_none_match == Some(object.meta.etag),
        g.conditions@.if_match is None,
        g.conditions@.if_unmodified_since is None,
    ensures
        w.run(objects::get_object_script(base, g)) == End::<ObjectView>::Refused(
            ErrorView::NotModified,
        ),
{
    laws::objects::get_gives_what_is_held(w, base, g, object);
}

} // verus!

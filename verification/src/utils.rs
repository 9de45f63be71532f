//! What the records and pages share: routes, and how long ago a time was.

use crate::records::file::{is_ok_name, File};
use crate::text::lowercase;
use crate::timeago::{elapsed, time_ago_at, time_ago_text, unix_time};
use std::borrow::Cow;
use vstd::prelude::*;

verus! {

/// What has a route: the path under which it is reached.
pub trait AsRoute {
    /// The route, as a text.
    spec fn route(&self) -> Seq<char>;

    /// The route.
    fn as_route(&self) -> (r: Cow<str>)
        ensures
            r@ == self.route(),
    ;
}

impl AsRoute for str {
    open spec fn route(&self) -> Seq<char> {
        self@
    }

    fn as_route(&self) -> (r: Cow<str>) {
        Cow::Borrowed(self)
    }
}

impl AsRoute for String {
    open spec fn route(&self) -> Seq<char> {
        self@
    }

    fn as_route(&self) -> (r: Cow<str>) {
        Cow::Borrowed(self.as_str())
    }
}

/// Tests whether files of the name `filename` are taken: whether the
/// extension of its lower-case form is one of those that the host accepts.
pub fn ok_extension(filename: &str) -> (r: bool)
    ensures
        r == is_ok_name(lowercase(filename@)),
{
    File::ok_extension(filename)
}

/// How long ago the time `epoch_time` was, by the system's clock.
pub fn rendered_time_ago(epoch_time: i32) -> (r: String)
    ensures
        exists|now: u64| r@ == time_ago_text(elapsed(now, epoch_time as int)),
{
    let now = unix_time();
    time_ago_at(now, epoch_time)
}

} // verus!

//! The render-side template container: program data plus a controller that
//! selects how it is rendered.
//!
//! [`Data`] borrows the payload and the ordered source files for one
//! render.  [`Template`] pairs the data with a controller value; attaching
//! a [`Language`] by [`Template::transform`] and calling
//! [`Template::erase`] turns the structured template into the plain output
//! bytes for that language.

use vstd::prelude::*;

use crate::encode::{b64_decode_of, b64_of, gunzip_of, gzip_best_of, is_b64_byte};
use crate::render::{render, render_text};
use crate::source::{views, SourceFile};
use crate::template::Language;

verus! {

/// Reference to in-memory program data: the payload bytes and the source
/// files in rendering order.
#[derive(Clone, Copy)]
pub struct Data<'s> {
    /// The opaque payload.
    pub payload: &'s [u8],
    /// The source files, as the collector ordered them.
    pub sources: &'s [SourceFile],
}

impl<'s> Data<'s> {
    /// Bundles the payload and the source files for one render.
    pub fn new(payload: &'s [u8], sources: &'s [SourceFile]) -> (r: Data<'s>)
        ensures
            r.payload@ == payload@,
            r.sources == sources,
    {
        Data { payload, sources }
    }
}

/// Template container: program data under a controller `T` that determines
/// how it renders.
#[derive(Clone, Copy)]
pub struct Template<'d, T> {
    /// The data to render.
    pub data: Data<'d>,
    /// The controller.
    pub ctrl: T,
}

impl<'d> Template<'d, ()> {
    /// Wraps data in a template with no controller yet.
    pub fn new(data: Data<'d>) -> (r: Template<'d, ()>)
        ensures
            r.data == data,
    {
        Template { data, ctrl: () }
    }
}

impl<'d, T: Copy> Template<'d, T> {
    /// Changes the controller of the template, keeping the data.
    pub fn transform<U>(self, new: U) -> (r: Template<'d, U>)
        ensures
            r.data == self.data,
            r.ctrl == new,
    {
        Template { data: self.data, ctrl: new }
    }
}

impl<'d, 'c> Template<'d, &'c Language> {
    /// Erases the structure: renders the data under the controlling
    /// language into plain output bytes, on every input.
    pub fn erase(self) -> (out: Vec<u8>)
        ensures
            out@ == render_text(
                self.ctrl@,
                views(self.data.sources@),
                b64_of(gzip_best_of(self.data.payload@)),
            ),
            b64_decode_of(b64_of(gzip_best_of(self.data.payload@))) == Some(
                gzip_best_of(self.data.payload@),
            ),
            gunzip_of(gzip_best_of(self.data.payload@)) == Some(self.data.payload@),
            forall|i: int|
                0 <= i < b64_of(gzip_best_of(self.data.payload@)).len() ==> is_b64_byte(
                    #[trigger] b64_of(gzip_best_of(self.data.payload@))[i],
                ),
            b64_of(gzip_best_of(self.data.payload@)).len() % 4 == 0,
    {
        render(self.ctrl, self.data.sources, self.data.payload)
    }
}

} // verus!

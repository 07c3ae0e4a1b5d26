//! Streams an operation works on.
use vstd::prelude::*;

use crate::elems::Elem;
use crate::streams::traits::{InputBinaryStream, InputElemStream, OutputBinaryStream, OutputElemStream};

verus! {

/// Holds input & output streams for compile operation.
///
/// * `E` - Element type (for input/output).
/// * `In` - Input stream type (elements stream).
/// * `Out` - Output stream type (binary stream).
pub struct CompileStreams<E, In, Out> {
    /// Input image stream (of image to ride).
    pub in_img: In,
    /// Input data stream (of data to compile).
    pub in_data: In,
    /// Output image stream (for result image).
    pub out_img: Out,
    /// Output key stream (for result key).
    pub out_key: Out,
    pub phantom: core::marker::PhantomData<E>,
}

impl<E: Elem, In: InputElemStream<E>, Out: OutputBinaryStream> CompileStreams<E, In, Out> {
    /// Constructs a new instance.
    ///
    /// * `in_img` - Input image stream (of image to ride).
    /// * `in_data` - Input data stream (of data to compile).
    /// * `out_img` - Output image stream (for result image).
    /// * `out_key` - Output key stream (for result key).
    pub fn new(in_img: In, in_data: In, out_img: Out, out_key: Out) -> (r: Self)
        ensures
            r.in_img == in_img,
            r.in_data == in_data,
            r.out_img == out_img,
            r.out_key == out_key,
    {
        Self { in_img, in_data, out_img, out_key, phantom: core::marker::PhantomData }
    }
}

/// Holds input & output streams for extract operation.
///
/// * `E` - Element type (for input/output).
/// * `In` - Input stream type (binary stream).
/// * `Out` - Output stream type (elements stream).
pub struct ExtractStreams<E, In, Out> {
    /// Input image stream (of compiled image).
    pub in_img: In,
    /// Input key stream (of compiled image key).
    pub in_key: In,
    /// Output data stream (for extracted data).
    pub out_data: Out,
    pub phantom: core::marker::PhantomData<E>,
}

impl<E: Elem, In: InputBinaryStream, Out: OutputElemStream<E>> ExtractStreams<E, In, Out> {
    /// Constructs a new instance.
    ///
    /// * `in_img` - Input image stream (of compiled image).
    /// * `in_key` - Input key stream (of compiled image key).
    /// * `out_data` - Output data stream (for extracted data).
    pub fn new(in_img: In, in_key: In, out_data: Out) -> (r: Self)
        ensures
            r.in_img == in_img,
            r.in_key == in_key,
            r.out_data == out_data,
    {
        Self { out_data, in_img, in_key, phantom: core::marker::PhantomData }
    }
}

} // verus!

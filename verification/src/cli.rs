//! Command-line level decisions: commands, image sources and configurations.
use vstd::prelude::*;

pub mod callbacks;
pub mod configs;
pub mod streams;

verus! {

/// A command of the program.
#[derive(Debug, PartialEq, Eq)]
pub enum Command {
    /// Compiles a file into an image (and a key).
    Compile {
        /// Path to store the output image to.
        out_img: String,
        /// Input file to compile into an image.
        in_file: String,
        /// Query of image to generate.
        img_query: Option<String>,
        /// Path to image file to base off of.
        img_path: Option<String>,
        /// Optional path to store key to (instead of riding the image).
        key_file: Option<String>,
    },
    /// Extracts a file from a compiled image (and its key).
    Extract {
        /// Path to compiled image to extract data from.
        in_img: String,
        /// File path to store extracted data to.
        out_file: String,
        /// Optional path to read key from (instead of riding the image).
        key_file: Option<String>,
    },
}

/// Represents image source (search query / direct path).
#[derive(Debug, PartialEq, Eq)]
pub enum ImgSrc {
    Query(String),
    Path(String),
}

/// Why no image source could be chosen.
#[derive(Debug, Clone, Copy, PartialEq, Eq, Structural)]
pub enum ImgSrcError {
    /// Neither a query nor a path was given.
    NotProvided,
    /// Both a query and a path were given.
    Ambiguous,
}

impl ImgSrcError {
    /// Gets the error's message.
    pub fn message(&self) -> (r: &'static str)
        ensures
            *self == ImgSrcError::NotProvided ==> r@
                == "Image source not provided: One of the arguments --img-query or --img-path must be provided."@,
            *self == ImgSrcError::Ambiguous ==> r@
                == "Image source is ambiguous: Only one of the arguments --img-query or --img-path must be provided."@,
    {
        match self {
            ImgSrcError::NotProvided => "Image source not provided: One of the arguments --img-query or --img-path must be provided.",
            ImgSrcError::Ambiguous => "Image source is ambiguous: Only one of the arguments --img-query or --img-path must be provided.",
        }
    }
}

impl ImgSrc {
    /// Gets image source based on input arguments.
    ///
    /// * `query` - 'img-query' argument if was provided, or `None` if was not.
    /// * `path` - 'img-path' argument if was provided, or `None` if was not.
    ///
    /// Returns an `ImgSrc` instance, or an error if neither or both arguments were provided.
    pub fn from_args(query: Option<String>, path: Option<String>) -> (r: Result<ImgSrc, ImgSrcError>)
        ensures
            query is None && path is None ==> r == Err::<ImgSrc, ImgSrcError>(ImgSrcError::NotProvided),
            query is Some && path is Some ==> r == Err::<ImgSrc, ImgSrcError>(ImgSrcError::Ambiguous),
            query is None ==> (path matches Some(p) ==> (r matches Ok(ImgSrc::Path(q)) && q@ == p@)),
            path is None ==> (query matches Some(s) ==> (r matches Ok(ImgSrc::Query(q)) && q@ == s@)),
    {
        match (query, path) {
            (None, None) => Err(ImgSrcError::NotProvided),
            (None, Some(path)) => Ok(ImgSrc::Path(path)),
            (Some(query), None) => Ok(ImgSrc::Query(query)),
            (Some(_), Some(_)) => Err(ImgSrcError::Ambiguous),
        }
    }
}

/// Output file with a path of its own.
pub struct OutputFile {
    pub path: String,
}

impl OutputFile {
    /// Gets file's path as a string slice.
    pub fn path_str(&self) -> (r: &str)
        ensures
            r@ == self.path@,
    {
        self.path.as_str()
    }
}

} // verus!

//! A verified post-to-feed pipeline: loosely structured text files are
//! parsed into validated post records, ordered by publish date, and
//! projected into the structured fields of a syndication feed document.

pub mod dates;
pub mod feed;
pub mod load;
pub mod posts;
pub mod text;

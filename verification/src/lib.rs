use vstd::prelude::*;

pub mod text;
pub mod strmap;
pub mod cite;
pub mod cli;
pub mod cdp;
pub mod check;
pub mod skill;
pub mod anim;
pub mod annot;
pub mod image;
pub mod svg;
pub mod mermaid;
pub mod pipeline;
pub mod quotes;
pub mod lsp;
pub mod pdfimport;
pub mod chart;
pub mod cmap;
pub mod audio;

verus! {
}

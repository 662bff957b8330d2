//! Blocks: the units of source text that indexing a file gives.

use crate::text::{copy_opt_text, copy_texts, opt_text, texts};
use vstd::prelude::*;

verus! {

/// What a block holds.
#[derive(Debug, Clone, Hash, PartialEq, Eq, Structural)]
pub enum BlockType {
    /// One function definition.
    Function,
    /// The text of a file that stands outside its named nodes.
    NonFunction,
}

/// A unit of source text: one function with its names and calls, or what is
/// left of a file beside its functions.
#[derive(Debug, Clone, Hash, PartialEq, Eq)]
pub struct Block {
    /// The key of the function; it identifies a block of type `Function`.
    pub node_key: String,
    /// What the block holds.
    pub block_type: BlockType,
    /// The source text, as it stands in the file.
    pub content: String,
    /// The name of the function, for a block of type `Function`.
    pub function_name: Option<String>,
    /// The name of the class that encloses the function, if one does.
    pub class_name: Option<String>,
    /// The keys of the functions that this one calls; some may name no
    /// function that was indexed.
    pub outgoing_calls: Vec<String>,
}

/// A block as plain text values.
pub struct BlockView {
    pub node_key: Seq<char>,
    pub block_type: BlockType,
    pub content: Seq<char>,
    pub function_name: Option<Seq<char>>,
    pub class_name: Option<Seq<char>>,
    pub outgoing_calls: Seq<Seq<char>>,
}

impl View for Block {
    type V = BlockView;

    open spec fn view(&self) -> BlockView {
        BlockView {
            node_key: self.node_key@,
            block_type: self.block_type,
            content: self.content@,
            function_name: opt_text(self.function_name),
            class_name: opt_text(self.class_name),
            outgoing_calls: texts(self.outgoing_calls@),
        }
    }
}

/// The views of a sequence of blocks.
pub open spec fn block_views(blocks: Seq<Block>) -> Seq<BlockView> {
    Seq::new(blocks.len(), |i: int| blocks[i]@)
}

impl Block {
    /// A block with the given parts and no outgoing calls.
    pub fn new(
        node_key: String,
        block_type: BlockType,
        content: String,
        function_name: Option<String>,
        class_name: Option<String>,
    ) -> (block: Block)
        ensures
            block@ == (BlockView {
                node_key: node_key@,
                block_type: block_type,
                content: content@,
                function_name: opt_text(function_name),
                class_name: opt_text(class_name),
                outgoing_calls: Seq::empty(),
            }),
    {
        let block = Block {
            node_key,
            block_type,
            content,
            function_name,
            class_name,
            outgoing_calls: Vec::new(),
        };
        assert(texts(block.outgoing_calls@) =~= Seq::<Seq<char>>::empty());
        block
    }

    /// A copy of the block.
    pub fn duplicate(&self) -> (copy: Block)
        ensures
            copy@ == self@,
    {
        Block {
            node_key: self.node_key.clone(),
            block_type: match self.block_type {
                BlockType::Function => BlockType::Function,
                BlockType::NonFunction => BlockType::NonFunction,
            },
            content: self.content.clone(),
            function_name: copy_opt_text(&self.function_name),
            class_name: copy_opt_text(&self.class_name),
            outgoing_calls: copy_texts(&self.outgoing_calls),
        }
    }
}

} // verus!

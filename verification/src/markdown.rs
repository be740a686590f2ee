//! The block segmenter: a document becomes a sequence of blocks.

use crate::block::{
    block_and_rest, equation, has_open_fence, header, horizontal_rule, ordered_list, parse_text,
    quote, source_code, unordered_list,
};
use crate::error::{ErrorKind, ParseError};
use crate::grammar;
use crate::grammar::block::{lemma_segment_stops_inside, BlockRule, BLOCK_RULES};
use crate::laws::{law_blocks_are_well_formed, law_no_empty_line};
use crate::pieces::{all_texts, law_texts_are_pieces_of_the_input, lie_in_order};
use crate::scan::{BACKTICK, DOLLAR};
use crate::tree::{block_views, Block, BlockView};
use vstd::prelude::*;
use vstd::string::*;

verus! {

/// A tree or a failure, as the grammar speaks of them.
pub open spec fn tree_view(r: Result<Vec<Block>, ParseError>) -> Result<
    Seq<BlockView>,
    ParseError,
> {
    match r {
        Ok(blocks) => Ok(block_views(blocks@)),
        Err(error) => Err(error),
    }
}

/// Reads what `rule` reads at the head of `input`.
pub fn apply<'a>(rule: BlockRule, input: &'a str) -> (r: Option<(Block<'a>, &'a str)>)
    ensures
        block_and_rest(r) == grammar::block::apply(rule, input.spec_bytes()),
{
    match rule {
        BlockRule::Header => header(input),
        BlockRule::HorizontalRule => horizontal_rule(input),
        BlockRule::UnorderedList => unordered_list(input),
        BlockRule::OrderedList => ordered_list(input),
        BlockRule::SourceCode => source_code(input),
        BlockRule::Equation => equation(input),
        BlockRule::Quote => quote(input),
        BlockRule::TextLine => parse_text(input),
    }
}

/// The byte that the fences of the block of `rule` are made of, where the
/// block has fences.
pub fn fence_mark(rule: BlockRule) -> (r: Option<u8>)
    ensures
        r == grammar::block::fence_mark(rule),
{
    match rule {
        BlockRule::SourceCode => Some(BACKTICK),
        BlockRule::Equation => Some(DOLLAR),
        _ => None,
    }
}

/// Reads one block with the first rule that matches. Fails where a fence
/// opens and is never closed, and where no rule matches.
pub fn next_block<'a>(input: &'a str) -> (r: Result<(Block<'a>, &'a str), ErrorKind>)
    ensures
        match r {
            Ok((block, rest)) => grammar::block::next_block(input.spec_bytes()) == Ok::<
                (BlockView, Seq<u8>),
                ErrorKind,
            >((block@, rest.spec_bytes())),
            Err(kind) => grammar::block::next_block(input.spec_bytes()) == Err::<
                (BlockView, Seq<u8>),
                ErrorKind,
            >(kind),
        },
{
    let mut k: usize = 0;
    while k < BLOCK_RULES.len()
        invariant
            k <= BLOCK_RULES@.len(),
            grammar::block::next_block(input.spec_bytes()) == grammar::block::first_match(
                input.spec_bytes(),
                k as int,
            ),
        decreases BLOCK_RULES@.len() - k,
    {
        let rule = BLOCK_RULES[k];
        match apply(rule, input) {
            Some(found) => {
                return Ok(found);
            },
            None => {
                if let Some(mark) = fence_mark(rule) {
                    if has_open_fence(input.as_bytes(), mark) {
                        return Err(ErrorKind::MalformedFence { rule });
                    }
                }
            },
        }
        k += 1;
    }
    Err(ErrorKind::GrammarMismatch)
}

/// Splits a document into all its blocks, blank lines too. Fails where
/// input is left and no block can be read at its head; the error says how
/// far the blocks reached.
pub fn parse_block<'a>(input: &'a str) -> (r: Result<Vec<Block<'a>>, ParseError>)
    ensures
        tree_view(r) == grammar::block::parse_block(input.spec_bytes()),
        r matches Ok(blocks) ==> forall|i: int|
            0 <= i < blocks.len() ==> (#[trigger] blocks[i])@.well_formed(),
        r matches Err(error) ==> error.position < input.spec_bytes().len(),
{
    proof {
        law_blocks_are_well_formed(input.spec_bytes());
        lemma_segment_stops_inside(input.spec_bytes());
    }
    let mut blocks: Vec<Block<'a>> = Vec::new();
    let mut rest = input;
    let length = input.as_bytes().len();
    while rest.as_bytes().len() > 0
        invariant
            length == input.spec_bytes().len(),
            rest.spec_bytes().len() <= length,
            match grammar::block::segment(rest.spec_bytes()) {
                Ok(more) => grammar::block::segment(input.spec_bytes()) == Ok::<
                    Seq<BlockView>,
                    grammar::block::Stop,
                >(block_views(blocks@) + more),
                Err(stop) => grammar::block::segment(input.spec_bytes()) == Err::<
                    Seq<BlockView>,
                    grammar::block::Stop,
                >(stop),
            },
        decreases rest.spec_bytes().len(),
    {
        let ghost before = block_views(blocks@);
        proof {
            grammar::block::lemma_first_match_advances(rest.spec_bytes(), 0);
        }
        match next_block(rest) {
            Ok((block, after)) => {
                let ghost view = block@;
                blocks.push(block);
                rest = after;
                proof {
                    assert(block_views(blocks@) =~= before.push(view));
                    if let Ok(more) = grammar::block::segment(after.spec_bytes()) {
                        assert(before.push(view) + more =~= before + (seq![view] + more));
                    }
                }
            },
            Err(kind) => {
                return Err(ParseError { kind, position: length - rest.as_bytes().len() });
            },
        }
    }
    assert(block_views(blocks@) + Seq::<BlockView>::empty() =~= block_views(blocks@));
    assert forall|i: int| 0 <= i < blocks.len() implies (#[trigger] blocks[i])@.well_formed() by {
        assert(block_views(blocks@)[i] == blocks[i]@);
    }
    Ok(blocks)
}

/// Parses a document into its tree: the blocks in the order of the text,
/// without the text lines that have no span. Fails, and hands out no block,
/// where input is left and no block can be read at its head.
pub fn parse<'a>(input: &'a str) -> (r: Result<Vec<Block<'a>>, ParseError>)
    ensures
        tree_view(r) == grammar::block::parse(input.spec_bytes()),
        r matches Ok(blocks) ==> forall|i: int|
            0 <= i < blocks.len() ==> (#[trigger] blocks[i])@.well_formed()
                && !blocks[i]@.is_empty_line(),
        r matches Ok(blocks) ==> lie_in_order(
            all_texts(block_views(blocks@)),
            input.spec_bytes(),
            0,
            input.spec_bytes().len() as int,
        ),
        r matches Err(error) ==> error.position < input.spec_bytes().len(),
{
    proof {
        law_texts_are_pieces_of_the_input(input.spec_bytes());
    }
    let all = match parse_block(input) {
        Ok(all) => all,
        Err(error) => {
            return Err(error);
        },
    };
    let ghost views = block_views(all@);
    let mut shown: Vec<Block<'a>> = Vec::new();
    for block in it: all
        invariant
            views == block_views(it.seq()),
            block_views(shown@) == grammar::block::shown(views.take(it.index() as int)),
    {
        let ghost before = block_views(shown@);
        let ghost seen = views.take(it.index() + 1);
        proof {
            reveal(Seq::filter);
            assert(seen.drop_last() =~= views.take(it.index() as int));
            assert(seen.last() == block@);
        }
        if !block.is_empty_line() {
            shown.push(block);
            assert(block_views(shown@) =~= before.push(block@));
        }
    }
    assert(views.take(views.len() as int) =~= views);
    assert(grammar::block::parse(input.spec_bytes()) == Ok::<Seq<BlockView>, ParseError>(
        block_views(shown@),
    ));
    assert forall|i: int| 0 <= i < shown.len() implies (#[trigger] shown[i])@.well_formed()
        && !shown[i]@.is_empty_line() by {
        law_blocks_are_well_formed(input.spec_bytes());
        law_no_empty_line(input.spec_bytes());
        let tree = grammar::block::parse(input.spec_bytes())->Ok_0;
        assert(tree[i] == shown[i]@);
    }
    Ok(shown)
}

} // verus!

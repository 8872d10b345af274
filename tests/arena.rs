use rewrite_lang::errors::LinkedTokensError;
use rewrite_lang::linked_tokens::{empty_buffer_at_end, push_while_parsing, LinkedTokens, Token, TokenNode};

fn all_links_in_bounds(lt: &LinkedTokens) -> bool {
    lt.arena.iter().all(|n| n.next.map_or(true, |j| j < lt.arena.len()))
}

#[test]
fn insert_after_splices_in_the_middle() {
    let mut lt = LinkedTokens::from_string("ac").unwrap();
    let a = lt.arena[0].next.unwrap();
    lt.insert_after(a, vec![Token::Char('b'), Token::Char('B')]).unwrap();
    assert_eq!(lt.to_raw_string(), "abBc");
    assert_eq!(lt.arena.len(), 5);
    lt.insert_after(0, vec![Token::ScopeStart]).unwrap();
    assert_eq!(lt.to_raw_string(), "{abBc");
    assert!(all_links_in_bounds(&lt));
}

#[test]
fn insert_after_errors() {
    let mut lt = LinkedTokens::from_string("a").unwrap();
    assert!(matches!(lt.insert_after(9, vec![Token::Colon]), Err(LinkedTokensError::InsertionInvalidIndex)));
    assert!(matches!(lt.insert_after(0, vec![]), Err(LinkedTokensError::InsertionEmptyTokens)));
    assert_eq!(lt.to_raw_string(), "a");
}

#[test]
fn remove_range_unlinks_following_tokens() {
    let mut lt = LinkedTokens::from_string("abcde").unwrap();
    lt.remove_range(1, 2).unwrap();
    assert_eq!(lt.to_raw_string(), "ade");
    lt.remove_range(1, 0).unwrap();
    assert_eq!(lt.to_raw_string(), "ade");
    assert!(matches!(lt.remove_range(1, 5), Err(LinkedTokensError::RemovalRangeTooBig)));
    assert!(matches!(lt.remove_range(40, 1), Err(LinkedTokensError::RemovalInvalidIndex)));
    assert_eq!(lt.to_raw_string(), "ade");
    assert!(all_links_in_bounds(&lt));
}

#[test]
fn remove_between_relinks() {
    let mut lt = LinkedTokens::from_string("abcde").unwrap();
    lt.remove_between_indices(1, 4).unwrap();
    assert_eq!(lt.to_raw_string(), "ade");
    assert!(matches!(lt.remove_between_indices(1, 99), Err(LinkedTokensError::RemovalInvalidIndex)));
    assert!(all_links_in_bounds(&lt));
}

#[test]
fn compaction_keeps_text_and_drops_dead_nodes() {
    let mut lt = LinkedTokens::from_string("{ a : b : c }").unwrap();
    lt.insert_after(2, vec![Token::Char('x'), Token::Char('y')]).unwrap();
    lt.remove_range(3, 1).unwrap();
    let before = lt.to_raw_string();
    lt.collect_garbage();
    assert_eq!(lt.to_raw_string(), before);
    assert_eq!(lt.arena.len(), before.chars().count() + 1);
    for k in 0..lt.arena.len() - 1 {
        assert_eq!(lt.arena[k].next, Some(k + 1));
    }
    lt.collect_garbage();
    assert_eq!(lt.to_raw_string(), before);
}

#[test]
fn compaction_of_empty_list() {
    let mut lt = LinkedTokens::from_string("").unwrap();
    lt.collect_garbage();
    assert_eq!(lt.arena.len(), 1);
    assert_eq!(lt.to_raw_string(), "");
}

#[test]
fn cyclic_list_still_renders() {
    let mut lt = LinkedTokens::from_string("ab").unwrap();
    lt.remove_between_indices(2, 1).unwrap();
    assert_eq!(lt.to_raw_string(), "ab");
}

#[test]
fn push_and_flush_on_a_plain_arena() {
    let mut arena = vec![TokenNode { token: Token::GenericWhitespace, next: None }];
    push_while_parsing(&mut arena, Token::GenericWhitespace);
    assert_eq!(arena.len(), 1);
    push_while_parsing(&mut arena, Token::Colon);
    assert_eq!(arena.len(), 2);
    assert_eq!(arena[0].next, Some(1));
    assert!(matches!(arena[1].token, Token::Colon));
    empty_buffer_at_end(&mut arena, &vec!['x', 'y']);
    assert_eq!(arena.len(), 4);
    assert_eq!(arena[1].next, Some(2));
    assert_eq!(arena[2].next, Some(3));
    assert!(arena[3].next.is_none());
    assert!(arena[3].token == Token::Char('y'));
}

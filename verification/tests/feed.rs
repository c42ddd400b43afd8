use deep_social::error::{Error, ErrorKind};
use deep_social::feed::{FeedStore, InitArg, Like, Post, SeedPost};
use deep_social::identity::Identity;
use deep_social::order::{newest_first, page_indices};
use deep_social::text::{char_is_space, text_is_blank};

fn who(n: u8) -> Identity {
    Identity::from_bytes(&vec![n]).unwrap()
}

fn three_posts() -> FeedStore {
    let mut feed = FeedStore::init(None, 0);
    feed.create_post(who(1), "Ann".to_string(), "first".to_string(), None, 100).unwrap();
    feed.create_post(who(2), "Bob".to_string(), "second".to_string(), None, 200).unwrap();
    feed.create_post(who(1), "Ann".to_string(), "third".to_string(), None, 300).unwrap();
    feed
}

#[test]
fn create_like_and_like_again() {
    let mut feed = FeedStore::init(None, 0);
    let post = feed.create_post(who(1), "Bob".to_string(), "hi".to_string(), None, 42).unwrap();
    assert_eq!(
        post,
        Post {
            id: 1,
            author: who(1),
            author_display: "Bob".to_string(),
            content: "hi".to_string(),
            image_key: None,
            timestamp_ns: 42,
            likes: 0,
        }
    );
    let liked = feed.like_post(who(2), 1).unwrap();
    assert_eq!(liked.id, 1);
    assert_eq!(liked.likes, 1);
    let again = feed.like_post(who(2), 1);
    assert_eq!(again, Err(Error::AlreadyLiked));
    assert_eq!(Error::AlreadyLiked.kind(), ErrorKind::Policy);
    assert_eq!(Error::AlreadyLiked.message(), "already liked");
    assert_eq!(feed.posts[0].likes, 1);
    assert_eq!(feed.likes, vec![Like { post_id: 1, who: who(2) }]);
}

#[test]
fn author_cannot_like_own_post() {
    let mut feed = three_posts();
    assert_eq!(feed.like_post(who(2), 2), Err(Error::OwnPost));
    assert_eq!(Error::OwnPost.kind(), ErrorKind::Policy);
    assert_eq!(Error::OwnPost.message(), "cannot like your own post");
    assert_eq!(feed.posts[1].likes, 0);
    assert!(feed.likes.is_empty());
    assert!(!feed.has_liked(2, who(2)));
}

#[test]
fn like_of_a_missing_post_is_not_found() {
    let mut feed = three_posts();
    assert_eq!(feed.like_post(who(5), 0), Err(Error::PostNotFound));
    assert_eq!(feed.like_post(who(5), 4), Err(Error::PostNotFound));
    assert_eq!(Error::PostNotFound.kind(), ErrorKind::NotFound);
    assert_eq!(feed.like_post(who(5), 3).unwrap().likes, 1);
    assert_eq!(feed.like_post(who(6), 3).unwrap().likes, 2);
    assert!(feed.has_liked(3, who(5)));
    assert!(!feed.has_liked(2, who(5)));
}

#[test]
fn like_count_saturates() {
    let mut feed = three_posts();
    feed.posts[0].likes = u64::MAX;
    assert_eq!(feed.like_post(who(9), 1).unwrap().likes, u64::MAX);
}

#[test]
fn blank_post_needs_an_image() {
    let mut feed = FeedStore::init(None, 0);
    let r = feed.create_post(who(1), "Ann".to_string(), " \t\n".to_string(), None, 1);
    assert_eq!(r, Err(Error::EmptyPost));
    assert_eq!(Error::EmptyPost.kind(), ErrorKind::Validation);
    assert_eq!(Error::EmptyPost.message(), "either content or image_key required");
    assert!(feed.posts.is_empty());
    let r = feed.create_post(who(1), "Ann".to_string(), String::new(), None, 1);
    assert_eq!(r, Err(Error::EmptyPost));
    let p = feed.create_post(who(1), "Ann".to_string(), "  ".to_string(), Some("feed1.png".to_string()), 2).unwrap();
    assert_eq!(p.id, 1);
    assert_eq!(p.image_key, Some("feed1.png".to_string()));
    assert_eq!(p.content, "  ");
    let p = feed.create_post(who(1), "Ann".to_string(), " x ".to_string(), None, 3).unwrap();
    assert_eq!(p.id, 2);
}

#[test]
fn comments_are_numbered_and_checked() {
    let mut feed = three_posts();
    let r = feed.comment_post(who(3), 2, "Cy".to_string(), "   ".to_string(), 5);
    assert_eq!(r, Err(Error::EmptyComment));
    assert_eq!(Error::EmptyComment.kind(), ErrorKind::Validation);
    assert_eq!(Error::EmptyComment.message(), "empty comment");
    let r = feed.comment_post(who(3), 9, "Cy".to_string(), "   ".to_string(), 5);
    assert_eq!(r, Err(Error::EmptyComment));
    let r = feed.comment_post(who(3), 9, "Cy".to_string(), "nice".to_string(), 5);
    assert_eq!(r, Err(Error::PostNotFound));
    assert_eq!(Error::PostNotFound.message(), "post not found");
    assert!(feed.comments.is_empty());
    let c = feed.comment_post(who(3), 2, "Cy".to_string(), "nice".to_string(), 6).unwrap();
    assert_eq!(c.id, 1);
    assert_eq!(c.post_id, 2);
    assert_eq!(c.author, who(3));
    assert_eq!(c.author_display, "Cy");
    assert_eq!(c.text, "nice");
    assert_eq!(c.timestamp_ns, 6);
    let c = feed.comment_post(who(2), 1, "Bob".to_string(), "ok".to_string(), 7).unwrap();
    assert_eq!(c.id, 2);
    assert_eq!(feed.comments.len(), 2);
}

#[test]
fn pages_are_newest_first() {
    let feed = three_posts();
    let page = feed.get_posts_paginated(who(9), 0, 2);
    let ids: Vec<u64> = page.iter().map(|d| d.post.id).collect();
    assert_eq!(ids, vec![3, 2]);
    assert_eq!(page[0].post.content, "third");
    let page = feed.get_posts_paginated(who(9), 3, 2);
    assert!(page.is_empty());
    let page = feed.get_posts_paginated(who(9), 2, 2);
    assert_eq!(page.len(), 1);
    assert_eq!(page[0].post.id, 1);
    assert!(feed.get_posts_paginated(who(9), u64::MAX, u64::MAX).is_empty());
    assert!(feed.get_posts_paginated(who(9), 0, 0).is_empty());
    assert_eq!(feed.get_posts_paginated(who(9), 0, u64::MAX).len(), 3);
}

#[test]
fn details_carry_comments_and_the_callers_like() {
    let mut feed = three_posts();
    feed.comment_post(who(3), 2, "Cy".to_string(), "a".to_string(), 6).unwrap();
    feed.comment_post(who(3), 3, "Cy".to_string(), "b".to_string(), 7).unwrap();
    feed.comment_post(who(4), 2, "Di".to_string(), "c".to_string(), 8).unwrap();
    feed.like_post(who(3), 2).unwrap();
    let page = feed.get_posts_paginated(who(3), 1, 1);
    assert_eq!(page.len(), 1);
    assert_eq!(page[0].post.id, 2);
    assert_eq!(page[0].post.likes, 1);
    assert!(page[0].liked_by_caller);
    let texts: Vec<&str> = page[0].comments.iter().map(|c| c.text.as_str()).collect();
    assert_eq!(texts, vec!["a", "c"]);
    let page = feed.get_posts_paginated(who(4), 0, 3);
    assert!(page.iter().all(|d| !d.liked_by_caller));
    assert_eq!(page[2].comments.len(), 0);
}

#[test]
fn posts_by_author_are_filtered_and_paged() {
    let feed = three_posts();
    let page = feed.get_posts_by_author(who(9), who(1), 0, 10);
    let ids: Vec<u64> = page.iter().map(|d| d.post.id).collect();
    assert_eq!(ids, vec![3, 1]);
    let page = feed.get_posts_by_author(who(9), who(1), 1, 10);
    assert_eq!(page.len(), 1);
    assert_eq!(page[0].post.id, 1);
    assert!(feed.get_posts_by_author(who(9), who(1), 2, 10).is_empty());
    assert!(feed.get_posts_by_author(who(9), who(7), 0, 10).is_empty());
}

#[test]
fn seed_posts_are_numbered_from_one() {
    let feed = FeedStore::init(
        Some(InitArg {
            seed_posts: vec![
                SeedPost { author: who(1), author_display: "Ann".to_string(), content: "a".to_string(), image_key: None },
                SeedPost {
                    author: who(2),
                    author_display: "Bob".to_string(),
                    content: String::new(),
                    image_key: Some("feed1.png".to_string()),
                },
            ],
        }),
        77,
    );
    assert_eq!(feed.posts.len(), 2);
    assert_eq!(feed.posts[0].id, 1);
    assert_eq!(feed.posts[1].id, 2);
    assert_eq!(feed.posts[1].author, who(2));
    assert_eq!(feed.posts[1].image_key, Some("feed1.png".to_string()));
    assert_eq!(feed.posts[1].timestamp_ns, 77);
    assert_eq!(feed.posts[1].likes, 0);
    assert!(feed.comments.is_empty());
    assert!(feed.likes.is_empty());
    let ids: Vec<u64> = feed.get_posts_paginated(who(1), 0, 5).iter().map(|d| d.post.id).collect();
    assert_eq!(ids, vec![1, 2]);
}

#[test]
fn order_is_descending_and_stable() {
    assert_eq!(newest_first(&vec![]), Vec::<usize>::new());
    assert_eq!(newest_first(&vec![5, 9, 5, 1, 9]), vec![1, 4, 0, 2, 3]);
    assert_eq!(newest_first(&vec![1, 2, 3]), vec![2, 1, 0]);
    assert_eq!(newest_first(&vec![7, 7, 7]), vec![0, 1, 2]);
}

#[test]
fn page_bounds_are_clipped() {
    let order = vec![4usize, 3, 2, 1, 0];
    assert_eq!(page_indices(&order, 0, 2), vec![4, 3]);
    assert_eq!(page_indices(&order, 4, 2), vec![0]);
    assert_eq!(page_indices(&order, 5, 2), Vec::<usize>::new());
    assert_eq!(page_indices(&order, 6, 2), Vec::<usize>::new());
    assert_eq!(page_indices(&order, 1, u64::MAX), vec![3, 2, 1, 0]);
}

#[test]
fn blank_means_only_white_space() {
    assert!(text_is_blank(""));
    assert!(text_is_blank(" \t\r\n\u{00A0}\u{3000}\u{2003}"));
    assert!(!text_is_blank(" a "));
    assert!(!text_is_blank("\u{200B}"));
    for c in ['\u{0}', ' ', 'x', '\u{85}', '\u{1680}', '\u{2028}', '\u{2029}', '\u{202F}', '\u{205F}', '\u{FEFF}', '\u{180E}'] {
        assert_eq!(char_is_space(c), c.is_whitespace());
    }
    for s in ["", "  ", "\u{2000}\u{200A}", "\u{200B}", "\u{1C}", "\u{0B}\u{0C}"] {
        assert_eq!(text_is_blank(s), s.trim().is_empty());
    }
}

#[test]
fn names_are_ordered_by_code_point() {
    let names: Vec<String> = ["b", "a", "B", "", "ab", "a", "\u{e9}", "z"].iter().map(|s| s.to_string()).collect();
    assert_eq!(deep_social::order::by_name(&names), vec![3, 2, 1, 5, 4, 0, 7, 6]);
    assert_eq!(deep_social::order::by_name(&vec![]), Vec::<usize>::new());
}

#[test]
fn feed_survives_a_restart() {
    let mut feed = three_posts();
    feed.like_post(who(3), 1).unwrap();
    feed.comment_post(who(3), 1, "Cy".to_string(), "a".to_string(), 6).unwrap();
    assert!(feed.is_valid());
    let kept = feed.snapshot();
    assert_eq!(kept.posts, feed.posts);
    assert_eq!(kept.comments, feed.comments);
    assert_eq!(kept.likes, feed.likes);
    let back = FeedStore::restore(Some(kept));
    assert_eq!(back.posts, feed.posts);
    assert_eq!(back.comments, feed.comments);
    assert_eq!(back.likes, feed.likes);
    assert!(FeedStore::restore(None).posts.is_empty());
}

#[test]
fn a_broken_feed_bundle_is_not_restored() {
    let mut broken = three_posts();
    broken.posts[1].id = 7;
    assert!(!broken.is_valid());
    assert!(FeedStore::restore(Some(broken)).posts.is_empty());
    let mut broken = three_posts();
    broken.likes.push(Like { post_id: 1, who: who(1) });
    assert!(!broken.is_valid());
    let mut broken = three_posts();
    broken.likes.push(Like { post_id: 4, who: who(5) });
    assert!(!broken.is_valid());
    let mut broken = three_posts();
    broken.likes.push(Like { post_id: 2, who: who(5) });
    assert!(broken.is_valid());
    broken.likes.push(Like { post_id: 2, who: who(5) });
    assert!(!broken.is_valid());
    let mut broken = three_posts();
    broken.comment_post(who(3), 1, "Cy".to_string(), "a".to_string(), 6).unwrap();
    broken.comments[0].id = 2;
    assert!(!broken.is_valid());
    let back = FeedStore::restore(Some(broken));
    assert!(back.posts.is_empty() && back.comments.is_empty() && back.likes.is_empty());
}

#[test]
fn can_like_tells_why_not() {
    let mut feed = three_posts();
    assert_eq!(feed.can_like(who(1), 0), Err(Error::OwnPost));
    assert_eq!(feed.can_like(who(2), 0), Ok(()));
    feed.like_post(who(2), 1).unwrap();
    assert_eq!(feed.can_like(who(2), 0), Err(Error::AlreadyLiked));
    assert_eq!(feed.can_like(who(2), 2), Ok(()));
    assert_eq!(feed.can_like(who(1), 2), Err(Error::OwnPost));
}

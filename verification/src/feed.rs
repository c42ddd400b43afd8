use crate::error::Error;
use crate::identity::Identity;
use crate::order::{is_newest_first, newest_first, page_indices, page_of, page_start};
use crate::text::{copy_text, is_blank, text_is_blank};
use vstd::prelude::*;
use vstd::string::*;

verus! {

/// A remark under a post.
#[derive(Clone, Debug, PartialEq, Eq)]
pub struct Comment {
    pub id: u64,
    pub post_id: u64,
    pub author: Identity,
    pub author_display: String,
    pub text: String,
    pub timestamp_ns: u64,
}

/// An entry of the feed.
#[derive(Clone, Debug, PartialEq, Eq)]
pub struct Post {
    pub id: u64,
    pub author: Identity,
    pub author_display: String,
    pub content: String,
    pub image_key: Option<String>,
    pub timestamp_ns: u64,
    pub likes: u64,
}

/// A post as one reader sees it.
#[derive(Clone, Debug, PartialEq, Eq)]
pub struct PostDetail {
    pub post: Post,
    pub comments: Vec<Comment>,
    pub liked_by_caller: bool,
}

/// A post to start the feed with.
#[derive(Clone, Debug, PartialEq, Eq)]
pub struct SeedPost {
    pub author: Identity,
    pub author_display: String,
    pub content: String,
    pub image_key: Option<String>,
}

/// The seed of a feed.
#[derive(Clone, Debug)]
pub struct InitArg {
    pub seed_posts: Vec<SeedPost>,
}

/// One identity's like of one post.
#[derive(Clone, Copy, Debug, PartialEq, Eq)]
pub struct Like {
    pub post_id: u64,
    pub who: Identity,
}

/// The feed: posts and comments in the order they came, and the likes.
#[derive(Debug)]
pub struct FeedStore {
    pub posts: Vec<Post>,
    pub comments: Vec<Comment>,
    pub likes: Vec<Like>,
}

impl Comment {
    /// A copy of the comment.
    pub fn duplicate(&self) -> (r: Comment)
        ensures
            r == *self,
    {
        Comment {
            id: self.id,
            post_id: self.post_id,
            author: self.author,
            author_display: self.author_display.clone(),
            text: self.text.clone(),
            timestamp_ns: self.timestamp_ns,
        }
    }
}

impl Post {
    /// A copy of the post.
    pub fn duplicate(&self) -> (r: Post)
        ensures
            r == *self,
    {
        Post {
            id: self.id,
            author: self.author,
            author_display: self.author_display.clone(),
            content: self.content.clone(),
            image_key: copy_text(&self.image_key),
            timestamp_ns: self.timestamp_ns,
            likes: self.likes,
        }
    }

    /// The post with another like count.
    pub open spec fn with_likes(self, likes: u64) -> Post {
        Post {
            id: self.id,
            author: self.author,
            author_display: self.author_display,
            content: self.content,
            image_key: self.image_key,
            timestamp_ns: self.timestamp_ns,
            likes,
        }
    }
}

/// One more, but never past the largest count.
pub open spec fn one_more(n: u64) -> u64 {
    if n == u64::MAX {
        n
    } else {
        (n + 1) as u64
    }
}

/// The posts are numbered from one, in the order of the feed.
pub open spec fn posts_numbered(posts: Seq<Post>) -> bool {
    forall|i: int| 0 <= i < posts.len() ==> (#[trigger] posts[i]).id == i + 1
}

/// The comments are numbered from one, in the order they came.
pub open spec fn comments_numbered(comments: Seq<Comment>) -> bool {
    forall|i: int| 0 <= i < comments.len() ==> (#[trigger] comments[i]).id == i + 1
}

/// Every like is of a post of the feed, by somebody other than its author.
pub open spec fn likes_allowed(posts: Seq<Post>, likes: Seq<Like>) -> bool {
    forall|k: int|
        0 <= k < likes.len() ==> 1 <= (#[trigger] likes[k]).post_id <= posts.len() && posts[likes[k].post_id
            - 1].author != likes[k].who
}

/// The comments under the post numbered `id`, in the order they came.
pub open spec fn comments_on(comments: Seq<Comment>, id: u64) -> Seq<Comment>
    decreases comments.len(),
{
    if comments.len() == 0 {
        Seq::empty()
    } else if comments.last().post_id == id {
        comments_on(comments.drop_last(), id).push(comments.last())
    } else {
        comments_on(comments.drop_last(), id)
    }
}

/// The indices of the posts of `author`, ascending.
pub open spec fn authored(posts: Seq<Post>, author: Identity) -> Seq<usize>
    decreases posts.len(),
{
    if posts.len() == 0 {
        Seq::empty()
    } else if posts.last().author == author {
        authored(posts.drop_last(), author).push((posts.len() - 1) as usize)
    } else {
        authored(posts.drop_last(), author)
    }
}

/// The indices of all of `n` posts, ascending.
pub open spec fn every(n: nat) -> Seq<usize> {
    Seq::new(n, |i: int| i as usize)
}

/// The times of the posts that `picks` names.
pub open spec fn stamps_at(posts: Seq<Post>, picks: Seq<usize>) -> Seq<u64> {
    picks.map_values(|i: usize| posts[i as int].timestamp_ns)
}

impl FeedStore {
    /// The invariant of a feed.
    pub open spec fn wf(&self) -> bool {
        &&& posts_numbered(self.posts@)
        &&& comments_numbered(self.comments@)
        &&& self.likes@.no_duplicates()
        &&& likes_allowed(self.posts@, self.likes@)
    }

    /// Whether `who` has liked the post numbered `id`.
    pub open spec fn liked(&self, id: u64, who: Identity) -> bool {
        self.likes@.contains(Like { post_id: id, who })
    }

    /// Whether `d` shows the post at index `i` as `caller` sees it: the
    /// post, the comments under it, and whether the caller liked it.
    pub open spec fn is_detail(&self, d: PostDetail, i: int, caller: Identity) -> bool {
        &&& d.post == self.posts@[i]
        &&& d.comments@ == comments_on(self.comments@, self.posts@[i].id)
        &&& d.liked_by_caller == self.liked(self.posts@[i].id, caller)
    }

    /// Whether `page` is the page at `offset` of up to `limit` of the posts
    /// that `picks` names, newest first, as `caller` sees them.
    pub open spec fn lists(
        &self,
        picks: Seq<usize>,
        caller: Identity,
        offset: u64,
        limit: u64,
        page: Seq<PostDetail>,
    ) -> bool {
        exists|order: Seq<usize>|
            {
                &&& is_newest_first(stamps_at(self.posts@, picks), order)
                &&& page.len() == page_of(order, offset, limit).len()
                &&& forall|k: int|
                    0 <= k < page.len() ==> self.is_detail(
                        #[trigger] page[k],
                        picks[page_of(order, offset, limit)[k] as int] as int,
                        caller,
                    )
            }
    }

    /// Why a like is refused, if it is.
    pub open spec fn like_verdict(&self, caller: Identity, id: u64) -> Option<Error> {
        if !(1 <= id <= self.posts@.len()) {
            Some(Error::PostNotFound)
        } else if self.posts@[id - 1].author == caller {
            Some(Error::OwnPost)
        } else if self.liked(id, caller) {
            Some(Error::AlreadyLiked)
        } else {
            None
        }
    }

    /// The like operation took `pre` to `post` and answered `out`.
    pub open spec fn like_step(
        pre: &FeedStore,
        post: &FeedStore,
        caller: Identity,
        id: u64,
        out: Result<Post, Error>,
    ) -> bool {
        match pre.like_verdict(caller, id) {
            Some(e) => out == Err::<Post, Error>(e) && *post == *pre,
            None => {
                &&& out == Ok::<Post, Error>(
                    pre.posts@[id - 1].with_likes(one_more(pre.posts@[id - 1].likes)),
                )
                &&& post.posts@ == pre.posts@.update(id - 1, out.unwrap())
                &&& post.likes@ == pre.likes@.push(Like { post_id: id, who: caller })
                &&& post.comments == pre.comments
            },
        }
    }

    /// A feed at first start: the seed's posts in order, numbered from one,
    /// all written at `now` and liked by nobody.
    pub fn init(arg: Option<InitArg>, now: u64) -> (r: FeedStore)
        ensures
            r.wf(),
            r.comments@.len() == 0,
            r.likes@.len() == 0,
            match arg {
                Some(seed) => {
                    &&& r.posts@.len() == seed.seed_posts@.len()
                    &&& forall|i: int|
                        0 <= i < r.posts@.len() ==> #[trigger] r.posts@[i] == (Post {
                            id: (i + 1) as u64,
                            author: seed.seed_posts@[i].author,
                            author_display: seed.seed_posts@[i].author_display,
                            content: seed.seed_posts@[i].content,
                            image_key: seed.seed_posts@[i].image_key,
                            timestamp_ns: now,
                            likes: 0,
                        })
                },
                None => r.posts@.len() == 0,
            },
    {
        let mut posts: Vec<Post> = Vec::new();
        if let Some(seed) = arg {
            let mut i: usize = 0;
            while i < seed.seed_posts.len()
                invariant
                    i <= seed.seed_posts@.len(),
                    posts@.len() == i,
                    forall|k: int|
                        0 <= k < i ==> #[trigger] posts@[k] == (Post {
                            id: (k + 1) as u64,
                            author: seed.seed_posts@[k].author,
                            author_display: seed.seed_posts@[k].author_display,
                            content: seed.seed_posts@[k].content,
                            image_key: seed.seed_posts@[k].image_key,
                            timestamp_ns: now,
                            likes: 0,
                        }),
                decreases seed.seed_posts@.len() - i,
            {
                let s = &seed.seed_posts[i];
                posts.push(
                    Post {
                        id: i as u64 + 1,
                        author: s.author,
                        author_display: s.author_display.clone(),
                        content: s.content.clone(),
                        image_key: copy_text(&s.image_key),
                        timestamp_ns: now,
                        likes: 0,
                    },
                );
                i += 1;
            }
        }
        FeedStore { posts, comments: Vec::new(), likes: Vec::new() }
    }

    /// Whether the invariant holds of this state.
    pub fn is_valid(&self) -> (r: bool)
        ensures
            r == self.wf(),
    {
        let mut i: usize = 0;
        while i < self.posts.len()
            invariant
                i <= self.posts@.len(),
                forall|k: int| 0 <= k < i ==> (#[trigger] self.posts@[k]).id == k + 1,
            decreases self.posts@.len() - i,
        {
            if self.posts[i].id != i as u64 + 1 {
                assert(self.posts@[i as int].id != i + 1);
                return false;
            }
            i += 1;
        }
        let mut c: usize = 0;
        while c < self.comments.len()
            invariant
                c <= self.comments@.len(),
                forall|k: int| 0 <= k < c ==> (#[trigger] self.comments@[k]).id == k + 1,
            decreases self.comments@.len() - c,
        {
            if self.comments[c].id != c as u64 + 1 {
                assert(self.comments@[c as int].id != c + 1);
                return false;
            }
            c += 1;
        }
        let mut j: usize = 0;
        while j < self.likes.len()
            invariant
                j <= self.likes@.len(),
                posts_numbered(self.posts@),
                forall|p: int, q: int| 0 <= p < q < j ==> self.likes@[p] != self.likes@[q],
                forall|k: int|
                    0 <= k < j ==> 1 <= (#[trigger] self.likes@[k]).post_id <= self.posts@.len()
                        && self.posts@[self.likes@[k].post_id - 1].author != self.likes@[k].who,
            decreases self.likes@.len() - j,
        {
            let like = self.likes[j];
            if like.post_id < 1 || like.post_id > self.posts.len() as u64 {
                assert(!(1 <= self.likes@[j as int].post_id <= self.posts@.len()));
                return false;
            }
            if self.posts[(like.post_id - 1) as usize].author.same(&like.who) {
                assert(self.posts@[self.likes@[j as int].post_id - 1].author == self.likes@[j as int].who);
                return false;
            }
            let mut i2: usize = 0;
            while i2 < j
                invariant
                    i2 <= j < self.likes@.len(),
                    like == self.likes@[j as int],
                    forall|p: int| 0 <= p < i2 ==> self.likes@[p] != self.likes@[j as int],
                decreases j - i2,
            {
                if self.likes[i2].post_id == like.post_id && self.likes[i2].who.same(&like.who) {
                    assert(self.likes@[i2 as int] == self.likes@[j as int]);
                    return false;
                }
                i2 += 1;
            }
            j += 1;
        }
        assert forall|p: int, q: int|
            0 <= p < self.likes@.len() && 0 <= q < self.likes@.len() && p != q implies self.likes@[p]
            != self.likes@[q] by {
            if p < q {
                assert(self.likes@[p] != self.likes@[q]);
            } else {
                assert(self.likes@[q] != self.likes@[p]);
            }
        }
        true
    }

    /// The whole state as one bundle, for safekeeping.
    pub fn snapshot(&self) -> (r: FeedStore)
        ensures
            r.posts@ == self.posts@,
            r.comments@ == self.comments@,
            r.likes@ == self.likes@,
            r.wf() == self.wf(),
    {
        let mut posts: Vec<Post> = Vec::new();
        let mut i: usize = 0;
        while i < self.posts.len()
            invariant
                i <= self.posts@.len(),
                posts@ == self.posts@.take(i as int),
            decreases self.posts@.len() - i,
        {
            posts.push(self.posts[i].duplicate());
            assert(posts@ =~= self.posts@.take(i + 1));
            i += 1;
        }
        assert(self.posts@.take(i as int) =~= self.posts@);
        let mut comments: Vec<Comment> = Vec::new();
        let mut j: usize = 0;
        while j < self.comments.len()
            invariant
                j <= self.comments@.len(),
                comments@ == self.comments@.take(j as int),
            decreases self.comments@.len() - j,
        {
            comments.push(self.comments[j].duplicate());
            assert(comments@ =~= self.comments@.take(j + 1));
            j += 1;
        }
        assert(self.comments@.take(j as int) =~= self.comments@);
        let mut likes: Vec<Like> = Vec::new();
        let mut k: usize = 0;
        while k < self.likes.len()
            invariant
                k <= self.likes@.len(),
                likes@ == self.likes@.take(k as int),
            decreases self.likes@.len() - k,
        {
            likes.push(self.likes[k]);
            assert(likes@ =~= self.likes@.take(k + 1));
            k += 1;
        }
        assert(self.likes@.take(k as int) =~= self.likes@);
        FeedStore { posts, comments, likes }
    }

    /// The state after a restart: the bundle that was kept, whole, where
    /// there is one and the invariant holds of it; else the empty feed.
    /// Nothing is ever restored in part.
    pub fn restore(saved: Option<FeedStore>) -> (r: FeedStore)
        ensures
            r.wf(),
            match saved {
                Some(s) => if s.wf() {
                    r == s
                } else {
                    r.posts@.len() == 0 && r.comments@.len() == 0 && r.likes@.len() == 0
                },
                None => r.posts@.len() == 0 && r.comments@.len() == 0 && r.likes@.len() == 0,
            },
    {
        match saved {
            Some(s) => {
                if s.is_valid() {
                    s
                } else {
                    FeedStore::init(None, 0)
                }
            },
            None => FeedStore::init(None, 0),
        }
    }

    /// Appends a post by the caller. A post needs content that is not
    /// blank, or an image.
    pub fn create_post(
        &mut self,
        caller: Identity,
        author_display: String,
        content: String,
        image_key: Option<String>,
        now: u64,
    ) -> (r: Result<Post, Error>)
        requires
            old(self).wf(),
            old(self).posts@.len() < u64::MAX,
        ensures
            final(self).wf(),
            r.is_err() <==> is_blank(content@) && image_key.is_none(),
            match r {
                Ok(p) => {
                    &&& p == (Post {
                        id: (old(self).posts@.len() + 1) as u64,
                        author: caller,
                        author_display,
                        content,
                        image_key,
                        timestamp_ns: now,
                        likes: 0,
                    })
                    &&& final(self).posts@ == old(self).posts@.push(p)
                    &&& final(self).comments == old(self).comments
                    &&& final(self).likes == old(self).likes
                },
                Err(e) => e == Error::EmptyPost && *final(self) == *old(self),
            },
    {
        if text_is_blank(content.as_str()) && image_key.is_none() {
            return Err(Error::EmptyPost);
        }
        let id: u64 = self.posts.len() as u64 + 1;
        let post = Post { id, author: caller, author_display, content, image_key, timestamp_ns: now, likes: 0 };
        let copy = post.duplicate();
        self.posts.push(post);
        Ok(copy)
    }

    /// Whether `who` has liked the post numbered `id`.
    pub fn has_liked(&self, id: u64, who: Identity) -> (r: bool)
        ensures
            r == self.liked(id, who),
    {
        let mut k: usize = 0;
        while k < self.likes.len()
            invariant
                k <= self.likes@.len(),
                forall|j: int| 0 <= j < k ==> self.likes@[j] != (Like { post_id: id, who }),
            decreases self.likes@.len() - k,
        {
            if self.likes[k].post_id == id && self.likes[k].who.same(&who) {
                assert(self.likes@[k as int] == (Like { post_id: id, who }));
                return true;
            }
            k += 1;
        }
        false
    }

    /// Whether the caller may like the post at index `at`: not the
    /// author's own, and not liked by the caller before.
    pub fn can_like(&self, caller: Identity, at: usize) -> (r: Result<(), Error>)
        requires
            self.wf(),
            at < self.posts@.len(),
        ensures
            r == match self.like_verdict(caller, (at + 1) as u64) {
                Some(e) => Err::<(), Error>(e),
                None => Ok::<(), Error>(()),
            },
    {
        if self.posts[at].author.same(&caller) {
            return Err(Error::OwnPost);
        }
        if self.has_liked(self.posts[at].id, caller) {
            return Err(Error::AlreadyLiked);
        }
        Ok(())
    }

    /// Records that the caller likes the post numbered `id` and counts it.
    /// Nobody likes their own post, and nobody likes a post twice.
    pub fn like_post(&mut self, caller: Identity, id: u64) -> (r: Result<Post, Error>)
        requires
            old(self).wf(),
        ensures
            final(self).wf(),
            FeedStore::like_step(old(self), final(self), caller, id, r),
            r.is_ok() ==> final(self).liked(id, caller),
    {
        if id < 1 || id > self.posts.len() as u64 {
            return Err(Error::PostNotFound);
        }
        let at: usize = (id - 1) as usize;
        match self.can_like(caller, at) {
            Err(e) => {
                return Err(e);
            },
            Ok(_) => {},
        }
        self.likes.push(Like { post_id: id, who: caller });
        assert(self.likes@.last() == (Like { post_id: id, who: caller }));
        let mut post = self.posts[at].duplicate();
        post.likes = post.likes.saturating_add(1);
        let copy = post.duplicate();
        self.posts.set(at, post);
        proof {
            let list = self.likes@;
            let fresh = Like { post_id: id, who: caller };
            assert forall|p: int, q: int| 0 <= p < list.len() && 0 <= q < list.len() && p != q implies list[p]
                != list[q] by {
                if p < list.len() - 1 && q < list.len() - 1 {
                    assert(old(self).likes@[p] != old(self).likes@[q]);
                } else if p < list.len() - 1 {
                    assert(old(self).likes@[p] != fresh);
                } else {
                    assert(old(self).likes@[q] != fresh);
                }
            }
            assert forall|k: int| 0 <= k < list.len() implies 1 <= (#[trigger] list[k]).post_id
                <= self.posts@.len() && self.posts@[list[k].post_id - 1].author != list[k].who by {
                if k < list.len() - 1 {
                    assert(list[k] == old(self).likes@[k]);
                }
            }
        }
        Ok(copy)
    }

    /// Appends a comment by the caller under the post numbered `id`.
    pub fn comment_post(
        &mut self,
        caller: Identity,
        id: u64,
        author_display: String,
        text: String,
        now: u64,
    ) -> (r: Result<Comment, Error>)
        requires
            old(self).wf(),
            old(self).comments@.len() < u64::MAX,
        ensures
            final(self).wf(),
            r.is_ok() <==> !is_blank(text@) && 1 <= id <= old(self).posts@.len(),
            match r {
                Ok(c) => {
                    &&& c == (Comment {
                        id: (old(self).comments@.len() + 1) as u64,
                        post_id: id,
                        author: caller,
                        author_display,
                        text,
                        timestamp_ns: now,
                    })
                    &&& final(self).comments@ == old(self).comments@.push(c)
                    &&& final(self).posts == old(self).posts
                    &&& final(self).likes == old(self).likes
                },
                Err(e) => {
                    &&& *final(self) == *old(self)
                    &&& e == if is_blank(text@) {
                        Error::EmptyComment
                    } else {
                        Error::PostNotFound
                    }
                },
            },
    {
        if text_is_blank(text.as_str()) {
            return Err(Error::EmptyComment);
        }
        if id < 1 || id > self.posts.len() as u64 {
            return Err(Error::PostNotFound);
        }
        let cid: u64 = self.comments.len() as u64 + 1;
        let comment = Comment { id: cid, post_id: id, author: caller, author_display, text, timestamp_ns: now };
        let copy = comment.duplicate();
        self.comments.push(comment);
        Ok(copy)
    }

    /// The comments under the post numbered `id`.
    fn comments_under(&self, id: u64) -> (r: Vec<Comment>)
        ensures
            r@ == comments_on(self.comments@, id),
    {
        let mut out: Vec<Comment> = Vec::new();
        let mut i: usize = 0;
        while i < self.comments.len()
            invariant
                i <= self.comments@.len(),
                out@ == comments_on(self.comments@.take(i as int), id),
            decreases self.comments@.len() - i,
        {
            proof {
                assert(self.comments@.take(i + 1).drop_last() =~= self.comments@.take(i as int));
            }
            if self.comments[i].post_id == id {
                out.push(self.comments[i].duplicate());
            }
            i += 1;
        }
        proof {
            assert(self.comments@.take(i as int) =~= self.comments@);
        }
        out
    }

    /// The page of the posts that `picks` names, newest first.
    fn details(&self, caller: Identity, picks: &Vec<usize>, offset: u64, limit: u64) -> (r: Vec<PostDetail>)
        requires
            forall|k: int| 0 <= k < picks@.len() ==> (#[trigger] picks@[k]) < self.posts@.len(),
        ensures
            self.lists(picks@, caller, offset, limit, r@),
    {
        let mut stamps: Vec<u64> = Vec::new();
        let mut i: usize = 0;
        while i < picks.len()
            invariant
                i <= picks@.len(),
                forall|k: int| 0 <= k < picks@.len() ==> (#[trigger] picks@[k]) < self.posts@.len(),
                stamps@ == stamps_at(self.posts@, picks@.take(i as int)),
            decreases picks@.len() - i,
        {
            stamps.push(self.posts[picks[i]].timestamp_ns);
            proof {
                assert(stamps@ =~= stamps_at(self.posts@, picks@.take(i + 1)));
            }
            i += 1;
        }
        proof {
            assert(picks@.take(i as int) =~= picks@);
        }
        let order = newest_first(&stamps);
        let chosen = page_indices(&order, offset, limit);
        let mut out: Vec<PostDetail> = Vec::new();
        let mut k: usize = 0;
        while k < chosen.len()
            invariant
                k <= chosen@.len(),
                chosen@ == page_of(order@, offset, limit),
                is_newest_first(stamps@, order@),
                stamps@.len() == picks@.len(),
                forall|j: int| 0 <= j < picks@.len() ==> (#[trigger] picks@[j]) < self.posts@.len(),
                out@.len() == k,
                forall|j: int|
                    0 <= j < k ==> self.is_detail(#[trigger] out@[j], picks@[chosen@[j] as int] as int, caller),
            decreases chosen@.len() - k,
        {
            let slot: usize = chosen[k];
            proof {
                let start = page_start(order@.len(), offset) as int;
                assert(chosen@[k as int] == order@[start + k]);
                assert(slot < picks@.len());
            }
            let at: usize = picks[slot];
            let post = self.posts[at].duplicate();
            let comments = self.comments_under(post.id);
            let liked_by_caller = self.has_liked(post.id, caller);
            out.push(PostDetail { post, comments, liked_by_caller });
            k += 1;
        }
        out
    }

    /// The page of the whole feed that starts at `offset` and holds up to
    /// `limit` posts, newest first. An offset past the end gives an empty page.
    pub fn get_posts_paginated(&self, caller: Identity, offset: u64, limit: u64) -> (r: Vec<PostDetail>)
        ensures
            self.lists(every(self.posts@.len()), caller, offset, limit, r@),
    {
        let mut picks: Vec<usize> = Vec::new();
        let mut i: usize = 0;
        while i < self.posts.len()
            invariant
                i <= self.posts@.len(),
                picks@ == every(i as nat),
            decreases self.posts@.len() - i,
        {
            picks.push(i);
            proof {
                assert(picks@ =~= every((i + 1) as nat));
            }
            i += 1;
        }
        self.details(caller, &picks, offset, limit)
    }

    /// The page of the posts of `author`, newest first.
    pub fn get_posts_by_author(&self, caller: Identity, author: Identity, offset: u64, limit: u64) -> (r: Vec<
        PostDetail,
    >)
        ensures
            self.lists(authored(self.posts@, author), caller, offset, limit, r@),
    {
        let mut picks: Vec<usize> = Vec::new();
        let mut i: usize = 0;
        while i < self.posts.len()
            invariant
                i <= self.posts@.len(),
                picks@ == authored(self.posts@.take(i as int), author),
                forall|k: int| 0 <= k < picks@.len() ==> (#[trigger] picks@[k]) < i,
            decreases self.posts@.len() - i,
        {
            proof {
                assert(self.posts@.take(i + 1).drop_last() =~= self.posts@.take(i as int));
            }
            if self.posts[i].author.same(&author) {
                picks.push(i);
            }
            i += 1;
        }
        proof {
            assert(self.posts@.take(i as int) =~= self.posts@);
        }
        self.details(caller, &picks, offset, limit)
    }
}

/// Nobody likes their own post: whatever the feed holds, the author's like
/// is refused as against the rules and changes nothing.
pub proof fn own_like_is_refused(pre: FeedStore, post: FeedStore, id: u64, out: Result<Post, Error>)
    requires
        1 <= id <= pre.posts@.len(),
        FeedStore::like_step(&pre, &post, pre.posts@[id - 1].author, id, out),
    ensures
        out == Err::<Post, Error>(Error::OwnPost),
        Error::OwnPost.spec_kind() == crate::error::ErrorKind::Policy,
        post == pre,
{
}

/// Nobody likes a post twice: after a like that was accepted, the same
/// identity's next like of that post is refused and changes nothing, so the
/// count stays where the first like left it.
pub proof fn second_like_is_refused(
    start: FeedStore,
    middle: FeedStore,
    end: FeedStore,
    caller: Identity,
    id: u64,
    first: Result<Post, Error>,
    second: Result<Post, Error>,
)
    requires
        FeedStore::like_step(&start, &middle, caller, id, first),
        first.is_ok(),
        FeedStore::like_step(&middle, &end, caller, id, second),
    ensures
        second == Err::<Post, Error>(Error::AlreadyLiked),
        Error::AlreadyLiked.spec_kind() == crate::error::ErrorKind::Policy,
        end == middle,
        end.posts@[id - 1].likes == first.unwrap().likes,
{
    assert(start.like_verdict(caller, id).is_none());
    assert(middle.likes@.last() == (Like { post_id: id, who: caller }));
    assert(middle.liked(id, caller));
}

} // verus!

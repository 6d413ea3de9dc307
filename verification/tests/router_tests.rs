use rustweb::router::{
    guard_verdict, GuardResult, LazyRoute, NoLazy, Route, RouteContext, RouteGuard, RouteLoader, Router, RouterError,
};
use std::sync::atomic::{AtomicUsize, Ordering};

struct NeedsPrincipal;
impl RouteGuard for NeedsPrincipal {
    fn check(&self, ctx: &RouteContext) -> GuardResult {
        if ctx.principal.is_some() {
            GuardResult::Allow
        } else {
            GuardResult::Redirect("/login".into())
        }
    }
}

struct RedirectToLogin;
impl RouteGuard for RedirectToLogin {
    fn check(&self, _ctx: &RouteContext) -> GuardResult {
        GuardResult::Redirect("/login".into())
    }
}

struct DenyNope;
impl RouteGuard for DenyNope {
    fn check(&self, _ctx: &RouteContext) -> GuardResult {
        GuardResult::Deny("nope".into())
    }
}

fn app_router() -> Router<NoLazy> {
    Router::new()
        .route(Route::new("", "Home"))
        .route(
            Route::new("users", "Users")
                .guard(NeedsPrincipal)
                .child(Route::new(":id", "UserDetail"))
                .child(Route::new(":id/edit", "UserEdit")),
        )
        .route(Route::new("login", "Login"))
}

#[test]
fn nested_match_with_params() {
    let mut r: Router<NoLazy> = Router::new()
        .route(Route::new("users", "Users").child(Route::new(":id", "UserDetail").child(Route::new("edit", "UserEdit"))));
    let hit = r.resolve("/users/42/edit").unwrap();
    assert_eq!(hit.view, "UserEdit");
    assert_eq!(hit.params.get("id").map(|s| s.as_str()), Some("42"));
}

#[test]
fn guard_redirect() {
    let mut r: Router<NoLazy> = Router::new()
        .route(Route::new("admin", "Admin").guard(RedirectToLogin))
        .route(Route::new("login", "Login"));
    let hit = r.resolve("/admin").unwrap();
    assert_eq!(hit.view, "Login");
}

#[test]
fn guard_deny_is_forbidden() {
    let mut r: Router<NoLazy> = Router::new().route(Route::new("secret", "S").guard(DenyNope));
    assert!(matches!(r.resolve("/secret"), Err(RouterError::Forbidden { .. })));
}

#[test]
fn not_found() {
    let mut r = app_router();
    assert!(matches!(r.resolve("/missing"), Err(RouterError::NotFound(_))));
}

static CALLS: AtomicUsize = AtomicUsize::new(0);

struct ProfileLoader;
impl RouteLoader for ProfileLoader {
    fn load(&mut self) -> Result<Vec<Route<Self>>, String> {
        CALLS.fetch_add(1, Ordering::SeqCst);
        Ok(vec![Route::new("profile", "Profile")])
    }
}

#[test]
fn lazy_loads_once() {
    let lazy = LazyRoute::new(ProfileLoader);
    let mut r = Router::new().route(Route::new("settings", "Settings").lazy_children(lazy));
    assert_eq!(r.resolve("/settings/profile").unwrap().view, "Profile");
    assert_eq!(r.resolve("/settings/profile").unwrap().view, "Profile");
    assert_eq!(CALLS.load(Ordering::SeqCst), 1, "factory must run exactly once");
}

#[test]
fn wildcard() {
    let mut r: Router<NoLazy> = Router::new().route(Route::new("files", "F").child(Route::new("*", "FileView")));
    let hit = r.resolve("/files/a/b/c").unwrap();
    assert_eq!(hit.view, "FileView");
    assert_eq!(hit.params.get("wildcard").map(|s| s.as_str()), Some("a/b/c"));
}

#[test]
fn nested_index_recurses_into_grand_children() {
    let mut r: Router<NoLazy> = Router::new()
        .route(Route::new("app", "App").child(Route::new("", "AppIndex").child(Route::new("settings", "AppSettings"))));
    let hit = r.resolve("/app/settings").unwrap();
    assert_eq!(hit.view, "AppSettings", "grand index child must be reachable");
}

#[test]
fn index_without_children_returns_own_view() {
    let mut r: Router<NoLazy> = Router::new().route(Route::new("app", "App").child(Route::new("", "AppIndex")));
    let hit = r.resolve("/app").unwrap();
    assert_eq!(hit.view, "AppIndex");
}

#[test]
fn guard_verdicts() {
    assert!(guard_verdict(GuardResult::Allow, "/a").is_none());
    match guard_verdict(GuardResult::Redirect("/login".to_string()), "/a") {
        Some(Ok(to)) => assert_eq!(to, "/login"),
        _ => panic!("expected a redirect"),
    }
    match guard_verdict(GuardResult::Deny("no".to_string()), "/a") {
        Some(Err(RouterError::Forbidden { path, reason })) => {
            assert_eq!(path, "/a");
            assert_eq!(reason, "no");
        }
        _ => panic!("expected a denial"),
    }
}

#[test]
fn lazy_outcome_carries_the_loader_message() {
    let failed: Result<Vec<rustweb::router::Route<rustweb::router::NoLazy>>, String> = Err("boom".to_owned());
    match rustweb::router::lazy_outcome(failed) {
        Err(rustweb::router::RouterError::LazyLoad { route, message }) => {
            assert_eq!(route, "<lazy>");
            assert_eq!(message, "boom");
        }
        _ => panic!("expected a LazyLoad error"),
    }
    let loaded: Result<Vec<rustweb::router::Route<rustweb::router::NoLazy>>, String> =
        Ok(vec![rustweb::router::Route::new("a", "A")]);
    match rustweb::router::lazy_outcome(loaded) {
        Ok(v) => assert_eq!(v.len(), 1),
        _ => panic!("expected the routes"),
    }
}

#[test]
fn resolve_with_settles_on_the_first_objection() {
    let r: Router<NoLazy> = Router::new().route(Route::new("secret", "S").guard(DenyNope).guard(DenyNope));
    match r.resolve_with("/secret", &vec![GuardResult::Allow, GuardResult::Deny("no".into())]) {
        Err(RouterError::Forbidden { path, reason }) => {
            assert_eq!(path, "/secret");
            assert_eq!(reason, "no");
        }
        _ => panic!("expected Forbidden"),
    }
    match r.resolve_with("/secret", &vec![GuardResult::Redirect("/login".into()), GuardResult::Deny("no".into())]) {
        Ok(rustweb::router::ResolveStep::Redirect(to)) => assert_eq!(to, "/login"),
        _ => panic!("expected a redirect"),
    }
    match r.resolve_with("/secret?x=1", &vec![GuardResult::Allow]) {
        Ok(rustweb::router::ResolveStep::Hit(res)) => {
            assert_eq!(res.view, "S");
            assert_eq!(res.chain.len(), 2);
        }
        _ => panic!("expected the view"),
    }
    assert!(matches!(r.resolve_with("/other", &vec![]), Err(RouterError::NotFound(_))));
}

struct RedirectTo(String);
impl RouteGuard for RedirectTo {
    fn check(&self, _ctx: &RouteContext) -> GuardResult {
        GuardResult::Redirect(self.0.clone())
    }
}

fn chain_router(hops: usize) -> Router<NoLazy> {
    let mut r: Router<NoLazy> = Router::new();
    for i in 0..hops {
        r = r.route(Route::new(&format!("r{i}"), "V").guard(RedirectTo(format!("/r{}", i + 1))));
    }
    r.route(Route::new(&format!("r{hops}"), "End"))
}

#[test]
fn eight_redirects_are_followed() {
    let mut r = chain_router(8);
    assert_eq!(r.resolve("/r0").unwrap().view, "End");
}

#[test]
fn a_ninth_redirect_is_a_loop() {
    let mut r = chain_router(9);
    match r.resolve("/r0") {
        Err(RouterError::RedirectLoop(p)) => assert_eq!(p, "/r0"),
        _ => panic!("expected RedirectLoop"),
    }
}

#[test]
fn deny_gives_forbidden_with_the_reason() {
    let mut r: Router<NoLazy> = Router::new().route(Route::new("secret", "S").guard(DenyNope));
    match r.resolve("/secret") {
        Err(RouterError::Forbidden { path, reason }) => {
            assert_eq!(path, "/secret");
            assert_eq!(reason, "nope");
        }
        _ => panic!("expected Forbidden"),
    }
}

#[test]
fn guards_are_handed_the_navigation() {
    let ctx = RouteContext::for_navigation("/a?x=1", rustweb::router::ParamMap::new(), rustweb::router::ParamMap::new());
    assert_eq!(ctx.path, "/a?x=1");
    assert!(ctx.principal.is_none());
}

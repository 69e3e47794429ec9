use minikv::quota::{QuotaCheckResult, QuotaManager, TenantQuota, TenantUsage};

#[test]
fn test_default_quota() {
    let manager = QuotaManager::new();
    let result = manager.check_storage("test_tenant", 1024);
    assert!(result.is_allowed());
}

#[test]
fn test_storage_limit() {
    let mut manager = QuotaManager::new();

    let quota = TenantQuota::with_limits("test_tenant".to_string(), 1024, 10, 100);
    manager.set_quota(quota);

    let result = manager.check_storage("test_tenant", 512);
    assert!(result.is_allowed());

    manager.record_storage_add("test_tenant", 512);

    let result = manager.check_storage("test_tenant", 1024);
    assert!(!result.is_allowed());
    assert!(matches!(result, QuotaCheckResult::StorageLimitExceeded { .. }));
}

#[test]
fn test_object_limit() {
    let mut manager = QuotaManager::new();

    let quota = TenantQuota::with_limits("test_tenant".to_string(), 1024 * 1024, 2, 100);
    manager.set_quota(quota);

    manager.record_storage_add("test_tenant", 100);
    manager.record_storage_add("test_tenant", 100);

    let result = manager.check_objects("test_tenant");
    assert!(!result.is_allowed());
    assert!(matches!(result, QuotaCheckResult::ObjectLimitExceeded { .. }));
}

#[test]
fn test_disabled_tenant() {
    let mut manager = QuotaManager::new();

    let mut quota = TenantQuota::new("disabled_tenant".to_string());
    quota.enabled = false;
    manager.set_quota(quota);

    let result = manager.check_storage("disabled_tenant", 1);
    assert!(!result.is_allowed());
    assert!(matches!(result, QuotaCheckResult::TenantDisabled));
}

#[test]
fn test_rate_limiting() {
    let mut manager = QuotaManager::new();

    let quota = TenantQuota::with_limits("rate_test".to_string(), 1024 * 1024, 1000, 3);
    manager.set_quota(quota);

    assert!(manager.check_and_record_request("rate_test").is_allowed());
    assert!(manager.check_and_record_request("rate_test").is_allowed());
    assert!(manager.check_and_record_request("rate_test").is_allowed());

    let result = manager.check_and_record_request("rate_test");
    assert!(!result.is_allowed());
    assert!(matches!(result, QuotaCheckResult::RateLimitExceeded { .. }));
}

#[test]
fn test_unlimited_quota() {
    let mut manager = QuotaManager::new();

    let quota = TenantQuota::unlimited("unlimited_tenant".to_string());
    manager.set_quota(quota);

    let result = manager.check_storage("unlimited_tenant", u64::MAX / 2);
    assert!(result.is_allowed());
}

#[test]
fn quota_error_messages_name_the_limits() {
    let storage = QuotaCheckResult::StorageLimitExceeded { limit: 1024, used: 512, requested: 1024 };
    assert_eq!(
        storage.error_message().unwrap(),
        "Storage quota exceeded: limit=1024 bytes, used=512 bytes, requested=1024 bytes"
    );
    let objects = QuotaCheckResult::ObjectLimitExceeded { limit: 2, count: 2 };
    assert_eq!(objects.error_message().unwrap(), "Object count quota exceeded: limit=2, current count=2");
    let rate = QuotaCheckResult::RateLimitExceeded { limit: 3, window_secs: 1 };
    assert_eq!(rate.error_message().unwrap(), "Rate limit exceeded: 3 requests per 1 second(s)");
    assert_eq!(QuotaCheckResult::TenantDisabled.error_message().unwrap(), "Tenant is disabled");
    assert!(QuotaCheckResult::Allowed.error_message().is_none());
}

#[test]
fn quota_rate_window_forgets_old_requests() {
    let mut manager = QuotaManager::new();
    manager.set_quota(TenantQuota::with_limits("t".to_string(), 0, 0, 2));
    assert!(manager.check_and_record_request_at("t", 1_000_000_000).is_allowed());
    assert!(manager.check_and_record_request_at("t", 1_100_000_000).is_allowed());
    assert!(!manager.check_and_record_request_at("t", 1_200_000_000).is_allowed());
    // One second after the first request, it has left the window.
    assert!(manager.check_and_record_request_at("t", 2_000_000_001).is_allowed());
}

#[test]
fn quota_storage_add_then_remove_restores_usage() {
    let mut manager = QuotaManager::new();
    manager.set_quota(TenantQuota::with_limits("t".to_string(), 1000, 10, 0));
    manager.record_storage_add("t", 300);
    manager.record_storage_remove("t", 300);
    let usage: TenantUsage = manager.get_usage("t");
    assert_eq!(usage.storage_used, 0);
    assert_eq!(usage.object_count, 0);
    // Removing more than was added stops at zero.
    manager.record_storage_remove("t", 5);
    assert_eq!(manager.get_usage("t").storage_used, 0);
}

#[test]
fn quota_storage_exactly_at_limit_is_allowed() {
    let mut manager = QuotaManager::new();
    manager.set_quota(TenantQuota::with_limits("t".to_string(), 1024, 10, 0));
    assert!(manager.check_storage("t", 1024).is_allowed());
    assert!(!manager.check_storage("t", 1025).is_allowed());
}

#[test]
fn quota_prometheus_lists_tenants() {
    let mut manager = QuotaManager::new();
    manager.set_quota(TenantQuota::with_limits("acme".to_string(), 100, 5, 0));
    manager.record_storage_add("acme", 40);
    let text = manager.to_prometheus();
    assert_eq!(
        text,
        "minikv_tenant_storage_used_bytes{tenant=\"acme\"} 40\n\
         minikv_tenant_storage_limit_bytes{tenant=\"acme\"} 100\n\
         minikv_tenant_object_count{tenant=\"acme\"} 1\n\
         minikv_tenant_object_limit{tenant=\"acme\"} 5\n"
    );
}

#[test]
fn quota_removing_storage_of_unknown_tenant_changes_nothing() {
    let mut manager = QuotaManager::new();
    manager.record_storage_add("t", 100);
    let before = manager.to_prometheus();
    assert_eq!(
        before,
        "minikv_tenant_storage_used_bytes{tenant=\"t\"} 100\n\
         minikv_tenant_storage_limit_bytes{tenant=\"t\"} 10737418240\n\
         minikv_tenant_object_count{tenant=\"t\"} 1\n\
         minikv_tenant_object_limit{tenant=\"t\"} 1000000\n"
    );
    manager.record_storage_remove("unknown", 10);
    assert_eq!(manager.to_prometheus(), before);
    assert_eq!(manager.get_usage("unknown").storage_used, 0);
}

use cumulo_web::resource::Toast;
use cumulo_web::storage::{SaveError, STORAGE_KEY};

#[test]
fn save_errors_are_worded_and_toasted() {
    let invalid = SaveError::Invalid("dangling parent".to_string());
    assert_eq!(invalid.message(), "invalid data: dangling parent");
    assert_eq!(invalid.toast(), Toast::SaveFailedInvalid);
    let storage = SaveError::Storage("QuotaExceeded".to_string());
    assert_eq!(storage.message(), "storage error: QuotaExceeded");
    assert_eq!(storage.toast(), Toast::SaveFailedStorage);
    assert_eq!(STORAGE_KEY, "cumulo_store");
}

use vstd::prelude::*;
use vstd::string::{StrSliceExecFns, StringExecFns};

verus! {

// ---------------------------------------------------------------------------
// Configuration
//
// Model definitions are held as an ordered association list; the TOML
// surface that fills them in lives outside the library.
// ---------------------------------------------------------------------------

#[derive(Clone)]
pub struct ServerConfig {
    pub host: String,
    pub port: u16,
    pub graceful_shutdown_timeout: u64,
}

#[derive(Clone)]
pub struct StorageConfig {
    pub data_dir: String,
    pub buffer_size: usize,
    pub enable_mmap: bool,
    pub sync_interval: u64,
}

#[derive(Clone)]
pub struct PerformanceConfig {
    pub batch_size: usize,
    pub batch_timeout: u64,
    pub max_concurrent_ops: usize,
}

#[derive(Clone)]
pub struct LoggingConfig {
    pub level: String,
    pub enable_colors: bool,
    pub log_requests: bool,
}

#[derive(Clone)]
pub struct MetricsConfig {
    pub enable: bool,
    pub report_interval: u64,
    pub max_samples: usize,
}

#[derive(Clone)]
pub struct SecurityConfig {
    pub enable_auth: bool,
    pub api_key: String,
}

#[derive(Clone)]
pub struct ModelField {
    pub name: String,
    pub field_type: String,
    pub required: bool,
}

#[derive(Clone)]
pub struct ModelSchema {
    pub fields: Vec<ModelField>,
}

#[derive(Clone)]
pub struct NyroConfig {
    pub server: ServerConfig,
    pub storage: StorageConfig,
    pub performance: PerformanceConfig,
    pub logging: LoggingConfig,
    pub metrics: MetricsConfig,
    pub security: SecurityConfig,
    pub models: Vec<(String, ModelSchema)>,
}

/// The schema registered under a model name, by first match.
pub open spec fn models_lookup(ms: Seq<(String, ModelSchema)>, name: Seq<char>) -> Option<
    ModelSchema,
>
    decreases ms.len(),
{
    if ms.len() == 0 {
        None
    } else if ms[0].0@ == name {
        Some(ms[0].1)
    } else {
        models_lookup(ms.drop_first(), name)
    }
}

/// A schema declares a field of this name.
pub open spec fn schema_has_field(s: ModelSchema, name: Seq<char>) -> bool {
    exists|i: int| 0 <= i < s.fields@.len() && s.fields@[i].name@ == name
}

/// Model names are unique within the registry.
pub open spec fn models_names_unique(ms: Seq<(String, ModelSchema)>) -> bool {
    forall|i: int, j: int| 0 <= i < j < ms.len() ==> ms[i].0@ != ms[j].0@
}

/// The model checks of `validate`: names are unique, and every model has
/// fields and declares `id`.
pub open spec fn spec_models_ok(ms: Seq<(String, ModelSchema)>) -> bool {
    &&& ms.len() > 0
    &&& models_names_unique(ms)
    &&& forall|i: int|
        0 <= i < ms.len() ==> (#[trigger] ms[i]).1.fields@.len() > 0 && schema_has_field(
            ms[i].1,
            "id"@,
        )
}

pub open spec fn spec_level_ok(level: Seq<char>) -> bool {
    level == "info"@ || level == "warn"@ || level == "error"@ || level == "shutdown"@
}

/// Everything `validate` checks.
pub open spec fn spec_valid(c: &NyroConfig) -> bool {
    &&& c.server.port != 0
    &&& c.server.host@.len() > 0
    &&& c.storage.buffer_size != 0
    &&& c.storage.data_dir@.len() > 0
    &&& c.performance.batch_size != 0
    &&& c.performance.max_concurrent_ops != 0
    &&& spec_level_ok(c.logging.level@)
    &&& c.metrics.max_samples != 0
    &&& spec_models_ok(c.models@)
}

impl NyroConfig {
    /// Rejects configurations the engine cannot run with.
    pub fn validate(&self) -> (r: Result<(), String>)
        ensures
            r is Ok <==> spec_valid(self),
    {
        if self.server.port == 0 {
            return Err(<String as StringExecFns>::from_str("Server port cannot be 0"));
        }
        if self.server.host.as_str().unicode_len() == 0 {
            return Err(<String as StringExecFns>::from_str("Server host cannot be empty"));
        }
        if self.storage.buffer_size == 0 {
            return Err(<String as StringExecFns>::from_str("Buffer size cannot be 0"));
        }
        if self.storage.data_dir.as_str().unicode_len() == 0 {
            return Err(<String as StringExecFns>::from_str("Data directory cannot be empty"));
        }
        if self.performance.batch_size == 0 {
            return Err(<String as StringExecFns>::from_str("Batch size cannot be 0"));
        }
        if self.performance.max_concurrent_ops == 0 {
            return Err(<String as StringExecFns>::from_str("Max concurrent ops cannot be 0"));
        }
        let lvl = &self.logging.level;
        let ok_level = lvl.eq(&<String as StringExecFns>::from_str("info")) || lvl.eq(
            &<String as StringExecFns>::from_str("warn"),
        ) || lvl.eq(&<String as StringExecFns>::from_str("error")) || lvl.eq(
            &<String as StringExecFns>::from_str("shutdown"),
        );
        if !ok_level {
            let mut m = <String as StringExecFns>::from_str("Invalid log level: ");
            m.append(lvl.as_str());
            return Err(m);
        }
        if self.metrics.max_samples == 0 {
            return Err(<String as StringExecFns>::from_str("Max samples cannot be 0"));
        }
        if self.models.len() == 0 {
            return Err(
                <String as StringExecFns>::from_str("No models defined in configuration"),
            );
        }
        let mut q: usize = 0;
        let idname = <String as StringExecFns>::from_str("id");
        while q < self.models.len()
            invariant
                0 <= q <= self.models@.len(),
                idname@ == "id"@,
                forall|i: int, j: int|
                    0 <= i < j < q ==> (#[trigger] self.models@[i]).0@ != (
                    #[trigger] self.models@[j]).0@,
                forall|i: int|
                    0 <= i < q ==> (#[trigger] self.models@[i]).1.fields@.len() > 0
                        && schema_has_field(self.models@[i].1, "id"@),
            decreases self.models@.len() - q,
        {
            let mut w2: usize = 0;
            while w2 < q
                invariant
                    0 <= w2 <= q < self.models@.len(),
                    forall|i: int|
                        0 <= i < w2 ==> (#[trigger] self.models@[i]).0@
                            != self.models@[q as int].0@,
                decreases q - w2,
            {
                if self.models[w2].0.eq(&self.models[q].0) {
                    proof {
                        assert(!models_names_unique(self.models@));
                    }
                    let mut m = <String as StringExecFns>::from_str("Duplicate model name: '");
                    m.append(self.models[q].0.as_str());
                    m.append("'");
                    return Err(m);
                }
                w2 += 1;
            }
            let schema = &self.models[q].1;
            if schema.fields.len() == 0 {
                let mut m = <String as StringExecFns>::from_str("Model '");
                m.append(self.models[q].0.as_str());
                m.append("' has no fields defined");
                return Err(m);
            }
            let mut w: usize = 0;
            let mut has_id: bool = false;
            while w < schema.fields.len()
                invariant
                    0 <= w <= schema.fields@.len(),
                    idname@ == "id"@,
                    has_id ==> schema_has_field(*schema, "id"@),
                    !has_id ==> forall|i: int|
                        0 <= i < w ==> (#[trigger] schema.fields@[i]).name@ != "id"@,
                decreases schema.fields@.len() - w,
            {
                if schema.fields[w].name.eq(&idname) {
                    has_id = true;
                }
                w += 1;
            }
            if !has_id {
                proof {
                    assert(!schema_has_field(*schema, "id"@));
                }
                let mut m = <String as StringExecFns>::from_str("Model '");
                m.append(self.models[q].0.as_str());
                m.append("' must have an 'id' field");
                return Err(m);
            }
            q += 1;
        }
        Ok(())
    }

    /// The schema of a model, if it is configured.
    pub fn get_model_schema<'a>(&'a self, model_name: &str) -> (r: Option<&'a ModelSchema>)
        ensures
            match r {
                Some(s) => models_lookup(self.models@, model_name@) == Some(*s),
                None => models_lookup(self.models@, model_name@) is None,
            },
    {
        let key = model_name.to_owned();
        let mut q: usize = 0;
        proof {
            assert(self.models@.skip(0) =~= self.models@);
        }
        while q < self.models.len()
            invariant
                0 <= q <= self.models@.len(),
                key@ == model_name@,
                models_lookup(self.models@, model_name@) == models_lookup(
                    self.models@.skip(q as int),
                    model_name@,
                ),
            decreases self.models@.len() - q,
        {
            proof {
                assert(self.models@.skip(q as int)[0] == self.models@[q as int]);
                assert(self.models@.skip(q as int).drop_first() =~= self.models@.skip(
                    q as int + 1,
                ));
            }
            if self.models[q].0.eq(&key) {
                return Some(&self.models[q].1);
            }
            q += 1;
        }
        proof {
            assert(self.models@.skip(self.models@.len() as int) =~= Seq::<
                (String, ModelSchema),
            >::empty());
        }
        None
    }

    /// Whether a model of this name is configured.
    pub fn has_model(&self, model_name: &str) -> (r: bool)
        ensures
            r == (models_lookup(self.models@, model_name@) is Some),
    {
        match self.get_model_schema(model_name) {
            Some(_) => true,
            None => false,
        }
    }
}

fn field(name: &str, field_type: &str, required: bool) -> (r: ModelField)
    ensures
        r.name@ == name@,
        r.field_type@ == field_type@,
        r.required == required,
{
    ModelField {
        name: name.to_owned(),
        field_type: field_type.to_owned(),
        required: required,
    }
}

impl Default for NyroConfig {
    /// The built-in configuration: a local server with `user` and `product`
    /// models.
    fn default() -> (r: Self)
        ensures
            r.server.host@ == "127.0.0.1"@ && r.server.port == 8080
                && r.server.graceful_shutdown_timeout == 5,
            r.storage.data_dir@ == "./data"@ && r.storage.buffer_size == 8388608
                && r.storage.enable_mmap && r.storage.sync_interval == 1000,
            r.performance.batch_size == 1000 && r.performance.batch_timeout == 100
                && r.performance.max_concurrent_ops == 10000,
            r.logging.level@ == "info"@ && r.logging.enable_colors && !r.logging.log_requests,
            r.metrics.enable && r.metrics.report_interval == 30 && r.metrics.max_samples == 10000,
            !r.security.enable_auth && r.security.api_key@ == "default_nyro_key_replace_me"@,
            r.models@.len() == 2,
            r.models@[0].0@ == "user"@ && r.models@[1].0@ == "product"@,
            r.models@[0].1.fields@.len() == 4 && r.models@[1].1.fields@.len() == 4,
            r.models@[0].1.fields@[0].name@ == "id"@ && r.models@[0].1.fields@[1].name@
                == "email"@ && r.models@[0].1.fields@[2].name@ == "hash_password"@
                && r.models@[0].1.fields@[3].name@ == "created_at"@,
            forall|i: int| 0 <= i < 4 ==> (#[trigger] r.models@[0].1.fields@[i]).required,
            r.models@[1].1.fields@[0].name@ == "id"@ && r.models@[1].1.fields@[1].name@
                == "name"@ && r.models@[1].1.fields@[2].name@ == "price"@
                && r.models@[1].1.fields@[3].name@ == "category_id"@,
            forall|i: int| 0 <= i < 4 ==> (#[trigger] r.models@[1].1.fields@[i]).required,
    {
        let mut user_fields: Vec<ModelField> = Vec::new();
        user_fields.push(field("id", "u64", true));
        user_fields.push(field("email", "string", true));
        user_fields.push(field("hash_password", "string", true));
        user_fields.push(field("created_at", "u64", true));
        let mut product_fields: Vec<ModelField> = Vec::new();
        product_fields.push(field("id", "u64", true));
        product_fields.push(field("name", "string", true));
        product_fields.push(field("price", "u32", true));
        product_fields.push(field("category_id", "u64", true));
        let mut models: Vec<(String, ModelSchema)> = Vec::new();
        models.push(("user".to_owned(), ModelSchema { fields: user_fields }));
        models.push(("product".to_owned(), ModelSchema { fields: product_fields }));
        NyroConfig {
            server: ServerConfig {
                host: "127.0.0.1".to_owned(),
                port: 8080,
                graceful_shutdown_timeout: 5,
            },
            storage: StorageConfig {
                data_dir: "./data".to_owned(),
                buffer_size: 8388608,
                enable_mmap: true,
                sync_interval: 1000,
            },
            performance: PerformanceConfig {
                batch_size: 1000,
                batch_timeout: 100,
                max_concurrent_ops: 10000,
            },
            logging: LoggingConfig {
                level: "info".to_owned(),
                enable_colors: true,
                log_requests: false,
            },
            metrics: MetricsConfig { enable: true, report_interval: 30, max_samples: 10000 },
            security: SecurityConfig {
                enable_auth: false,
                api_key: "default_nyro_key_replace_me".to_owned(),
            },
            models: models,
        }
    }
}

/// Whether a request carrying this key (or none) may pass: always when auth
/// is off, and only with the exact configured key when it is on.
pub fn check_api_key(security: &SecurityConfig, provided: Option<&String>) -> (r: bool)
    ensures
        r == (!security.enable_auth || (match provided {
            Some(k) => k@ == security.api_key@,
            None => false,
        })),
{
    if !security.enable_auth {
        return true;
    }
    match provided {
        Some(k) => k.eq(&security.api_key),
        None => false,
    }
}

} // verus!

//! The human text of a harness failure: its code on the first line, then the
//! explanation.
use super::{authority_name, authority_versions, failure_code, HarnessFailure, TomlError};
use crate::nav::{fnv_canonical, push_fnv_canonical};
use crate::text::{decimal, push_decimal, push_str_chars, string_from};
use vstd::prelude::*;

verus! {

/// `linha <line>: <msg>`, the text of a TOML error.
pub open spec fn toml_text(e: TomlError) -> Seq<char> {
    "linha "@ + decimal(e.line as nat) + ": "@ + e.msg@
}

/// The text of a failure after its code line.
pub open spec fn failure_body(f: HarnessFailure) -> Seq<char> {
    match f {
        HarnessFailure::Toml (err) => "TOML fora do subconjunto aceito: "@ + toml_text(err),
        HarnessFailure::MissingField { field } => "campo obrigatório ausente: "@ + field@,
        HarnessFailure::InvalidField { field, msg } => "campo '"@ + field@ + "' inválido: "@ + msg@,
        HarnessFailure::SchemaUnknown { authority, found } => "schema "@ + decimal(found as nat) + " desconhecido para "@ + authority_name(authority) + "; este formato aceita "@ + authority_versions(authority),
        HarnessFailure::IdUnsafe { field, value } => "identificador inseguro em '"@ + field@ + "': '"@ + value@ + "' (use [a-z0-9] separados por '.', '-' ou '_', até 64 caracteres)"@,
        HarnessFailure::StateUnknown { value } => "estado '"@ + value@ + "' desconhecido; aceitos: FROZEN, CANDIDATE"@,
        HarnessFailure::HashInvalid { field, value } => "hash inválido em '"@ + field@ + "': '"@ + value@ + "' (esperado fnv1a64:<16 hexadecimais minúsculos>)"@,
        HarnessFailure::PredecessorSelfReference { id } => "predecessor igual ao próprio identificador '"@ + id@ + "'"@,
        HarnessFailure::PathAbsolute { field, value } => "path absoluto em '"@ + field@ + "': '"@ + value@ + "' (esperado path repo-relativo)"@,
        HarnessFailure::PathTraversal { field, value } => "travessia de path em '"@ + field@ + "': '"@ + value@ + "'"@,
        HarnessFailure::RuleWithoutOperation { index } => "regra "@ + decimal(index as nat) + " sem campo 'op'"@,
        HarnessFailure::RuleOperationUnknown { index, op } => "regra "@ + decimal(index as nat) + " com operação desconhecida '"@ + op@ + "'"@,
        HarnessFailure::RuleWithoutSelector { index, op } => "regra "@ + decimal(index as nat) + " da operação '"@ + op@ + "' sem seletor"@,
        HarnessFailure::OverrideMissing { declared, found } => "override ausente: expected_overrides = "@ + decimal(declared as nat) + ", encontradas "@ + decimal(found as nat),
        HarnessFailure::OverrideExcess { declared, found } => "override excedente: expected_overrides = "@ + decimal(declared as nat) + ", encontradas "@ + decimal(found as nat),
        HarnessFailure::OverrideRepeated { key } => "override repetido para a chave '"@ + key@ + "'"@,
        HarnessFailure::ExclusionMissing { declared, found } => "exclusão ausente: expected_exclusions = "@ + decimal(declared as nat) + ", encontradas "@ + decimal(found as nat),
        HarnessFailure::ExclusionExcess { declared, found } => "exclusão excedente: expected_exclusions = "@ + decimal(declared as nat) + ", encontradas "@ + decimal(found as nat),
        HarnessFailure::ExclusionRepeated { selector } => "exclusão repetida para o seletor '"@ + selector@ + "'"@,
        HarnessFailure::RegionRemoved { key } => "região '"@ + key@ + "' removida do catálogo: o override não tem correspondência"@,
        HarnessFailure::KeyChanged { expected, found } => "key alterada: o override esperava '"@ + expected@ + "' e a região correspondente agora é '"@ + found@ + "'"@,
        HarnessFailure::SelectorAmbiguous { key, matches } => "seletor ambíguo: '"@ + key@ + "' corresponde a "@ + decimal(matches as nat) + " regiões"@,
        HarnessFailure::OverrideNotConsumed { key } => "override '"@ + key@ + "' não consumido"@,
        HarnessFailure::PathChanged { key, expected, found } => "path alterado na região '"@ + key@ + "': esperado '"@ + expected@ + "', encontrado '"@ + found@ + "'"@,
        HarnessFailure::MetadataChanged { key, field, expected, found } => "metadata alterada na região '"@ + key@ + "': '"@ + field@ + "' esperado '"@ + expected@ + "', encontrado '"@ + found@ + "'"@,
        HarnessFailure::OverrideStaleSummary { key, expected, found } => "summary corrente da região '"@ + key@ + "' divergente: esperado '"@ + expected@ + "', encontrado '"@ + found@ + "'"@,
        HarnessFailure::FieldNotAllowedForOp { op, field } => "campo '"@ + field@ + "' não pertence à operação '"@ + op@ + "'"@,
        HarnessFailure::OverrideRegionPairInvalid { key, msg } => "override-region de '"@ + key@ + "' inválido: "@ + msg@,
        HarnessFailure::OverrideStaleBase { key, expected, found } => "base do override '"@ + key@ + "' divergente: esperado '"@ + expected@ + "', encontrado '"@ + found@ + "'"@,
        HarnessFailure::ExclusionNoMatch { selector } => "exclusão sem correspondência para o seletor '"@ + selector@ + "'"@,
        HarnessFailure::DuplicateSnapshot { id } => "snapshot duplicado: '"@ + id@ + "'"@,
        HarnessFailure::DuplicateRecipe { id } => "receita duplicada: '"@ + id@ + "'"@,
        HarnessFailure::BaseSnapshotMissing { id } => "base_snapshot '"@ + id@ + "' não existe entre os snapshots"@,
        HarnessFailure::RecipeMissing { id } => "receita '"@ + id@ + "' não existe"@,
        HarnessFailure::CompositionCycle { path } => "ciclo no grafo de composição: "@ + path@,
        HarnessFailure::BaseMeasuresDiverged { id, expected, observed } => "base '"@ + id@ + "' não bate com as próprias medidas: esperado regioes="@ + decimal(expected.regions as nat) + " comprimento="@ + decimal(expected.length as nat) + " "@ + fnv_canonical(expected.fnv1a64) + ", observado regioes="@ + decimal(observed.regions as nat) + " comprimento="@ + decimal(observed.length as nat) + " "@ + fnv_canonical(observed.fnv1a64),
        HarnessFailure::FrozenDependsOnCandidate { frozen, candidate } => "snapshot congelado '"@ + frozen@ + "' depende do candidato '"@ + candidate@ + "'"@,
        HarnessFailure::RecipeHasSnapshotField { field } => "receita declara '"@ + field@ + "', que pertence a snapshot: receita não tem medidas, estado nem predecessor"@,
        HarnessFailure::CapabilityRequiresSchema { authority, capability, found_schema, required_schema } => "'"@ + capability@ + "' exige schema "@ + decimal(required_schema as nat) + " de "@ + authority_name(authority) + "; o arquivo declara schema "@ + decimal(found_schema as nat),
        HarnessFailure::SelfBase { id } => "snapshot '"@ + id@ + "' declara a si mesmo como base"@,
        HarnessFailure::RecipeSelfStep { id } => "receita '"@ + id@ + "' declara a si mesma como passo"@,
        HarnessFailure::ExclusionPartiallyConsumed { selector, expected, consumed } => "exclusão parcialmente consumida em '"@ + selector@ + "': esperado "@ + decimal(expected as nat) + ", consumido "@ + decimal(consumed as nat),
        HarnessFailure::MaterializationMissing { declared, found } => "materialização ausente: expected_materializations = "@ + decimal(declared as nat) + ", encontradas "@ + decimal(found as nat),
        HarnessFailure::MaterializationExcess { declared, found } => "materialização excedente: expected_materializations = "@ + decimal(declared as nat) + ", encontradas "@ + decimal(found as nat),
        HarnessFailure::MaterializationRepeated { key } => "região histórica '"@ + key@ + "' materializada duas vezes: um fato, uma autoridade"@,
        HarnessFailure::MaterializationCollision { key } => "região '"@ + key@ + "' já existe no estado: a materialização histórica não sobrescreve nem funde"@,
        HarnessFailure::OperationOutsideAuthority { authority, op } => "operação '"@ + op@ + "' não existe na autoridade de "@ + authority_name(authority),
    }
}

#[verifier::rlimit(100)]
#[verifier::spinoff_prover]
fn push_failure_body(out: &mut Vec<char>, f: &HarnessFailure)
    ensures
        final(out)@ == old(out)@ + failure_body(*f),
{
    let ghost start = out@;
    match f {
        HarnessFailure::Toml (err) => {
            push_str_chars(out, "TOML fora do subconjunto aceito: ");
            push_str_chars(out, err.message().as_str());
            assert(out@ =~= start + failure_body(*f));
        },
        HarnessFailure::MissingField { field } => {
            push_str_chars(out, "campo obrigatório ausente: ");
            push_str_chars(out, field.as_str());
            assert(out@ =~= start + failure_body(*f));
        },
        HarnessFailure::InvalidField { field, msg } => {
            push_str_chars(out, "campo '");
            push_str_chars(out, field.as_str());
            push_str_chars(out, "' inválido: ");
            push_str_chars(out, msg.as_str());
            assert(out@ =~= start + failure_body(*f));
        },
        HarnessFailure::SchemaUnknown { authority, found } => {
            push_str_chars(out, "schema ");
            push_decimal(out, *found as u64);
            push_str_chars(out, " desconhecido para ");
            push_str_chars(out, authority.as_str());
            push_str_chars(out, "; este formato aceita ");
            push_str_chars(out, authority.supported_versions());
            assert(out@ =~= start + failure_body(*f));
        },
        HarnessFailure::IdUnsafe { field, value } => {
            push_str_chars(out, "identificador inseguro em '");
            push_str_chars(out, field.as_str());
            push_str_chars(out, "': '");
            push_str_chars(out, value.as_str());
            push_str_chars(out, "' (use [a-z0-9] separados por '.', '-' ou '_', até 64 caracteres)");
            assert(out@ =~= start + failure_body(*f));
        },
        HarnessFailure::StateUnknown { value } => {
            push_str_chars(out, "estado '");
            push_str_chars(out, value.as_str());
            push_str_chars(out, "' desconhecido; aceitos: FROZEN, CANDIDATE");
            assert(out@ =~= start + failure_body(*f));
        },
        HarnessFailure::HashInvalid { field, value } => {
            push_str_chars(out, "hash inválido em '");
            push_str_chars(out, field.as_str());
            push_str_chars(out, "': '");
            push_str_chars(out, value.as_str());
            push_str_chars(out, "' (esperado fnv1a64:<16 hexadecimais minúsculos>)");
            assert(out@ =~= start + failure_body(*f));
        },
        HarnessFailure::PredecessorSelfReference { id } => {
            push_str_chars(out, "predecessor igual ao próprio identificador '");
            push_str_chars(out, id.as_str());
            push_str_chars(out, "'");
            assert(out@ =~= start + failure_body(*f));
        },
        HarnessFailure::PathAbsolute { field, value } => {
            push_str_chars(out, "path absoluto em '");
            push_str_chars(out, field.as_str());
            push_str_chars(out, "': '");
            push_str_chars(out, value.as_str());
            push_str_chars(out, "' (esperado path repo-relativo)");
            assert(out@ =~= start + failure_body(*f));
        },
        HarnessFailure::PathTraversal { field, value } => {
            push_str_chars(out, "travessia de path em '");
            push_str_chars(out, field.as_str());
            push_str_chars(out, "': '");
            push_str_chars(out, value.as_str());
            push_str_chars(out, "'");
            assert(out@ =~= start + failure_body(*f));
        },
        HarnessFailure::RuleWithoutOperation { index } => {
            push_str_chars(out, "regra ");
            push_decimal(out, *index as u64);
            push_str_chars(out, " sem campo 'op'");
            assert(out@ =~= start + failure_body(*f));
        },
        HarnessFailure::RuleOperationUnknown { index, op } => {
            push_str_chars(out, "regra ");
            push_decimal(out, *index as u64);
            push_str_chars(out, " com operação desconhecida '");
            push_str_chars(out, op.as_str());
            push_str_chars(out, "'");
            assert(out@ =~= start + failure_body(*f));
        },
        HarnessFailure::RuleWithoutSelector { index, op } => {
            push_str_chars(out, "regra ");
            push_decimal(out, *index as u64);
            push_str_chars(out, " da operação '");
            push_str_chars(out, op.as_str());
            push_str_chars(out, "' sem seletor");
            assert(out@ =~= start + failure_body(*f));
        },
        HarnessFailure::OverrideMissing { declared, found } => {
            push_str_chars(out, "override ausente: expected_overrides = ");
            push_decimal(out, *declared as u64);
            push_str_chars(out, ", encontradas ");
            push_decimal(out, *found as u64);
            assert(out@ =~= start + failure_body(*f));
        },
        HarnessFailure::OverrideExcess { declared, found } => {
            push_str_chars(out, "override excedente: expected_overrides = ");
            push_decimal(out, *declared as u64);
            push_str_chars(out, ", encontradas ");
            push_decimal(out, *found as u64);
            assert(out@ =~= start + failure_body(*f));
        },
        HarnessFailure::OverrideRepeated { key } => {
            push_str_chars(out, "override repetido para a chave '");
            push_str_chars(out, key.as_str());
            push_str_chars(out, "'");
            assert(out@ =~= start + failure_body(*f));
        },
        HarnessFailure::ExclusionMissing { declared, found } => {
            push_str_chars(out, "exclusão ausente: expected_exclusions = ");
            push_decimal(out, *declared as u64);
            push_str_chars(out, ", encontradas ");
            push_decimal(out, *found as u64);
            assert(out@ =~= start + failure_body(*f));
        },
        HarnessFailure::ExclusionExcess { declared, found } => {
            push_str_chars(out, "exclusão excedente: expected_exclusions = ");
            push_decimal(out, *declared as u64);
            push_str_chars(out, ", encontradas ");
            push_decimal(out, *found as u64);
            assert(out@ =~= start + failure_body(*f));
        },
        HarnessFailure::ExclusionRepeated { selector } => {
            push_str_chars(out, "exclusão repetida para o seletor '");
            push_str_chars(out, selector.as_str());
            push_str_chars(out, "'");
            assert(out@ =~= start + failure_body(*f));
        },
        HarnessFailure::RegionRemoved { key } => {
            push_str_chars(out, "região '");
            push_str_chars(out, key.as_str());
            push_str_chars(out, "' removida do catálogo: o override não tem correspondência");
            assert(out@ =~= start + failure_body(*f));
        },
        HarnessFailure::KeyChanged { expected, found } => {
            push_str_chars(out, "key alterada: o override esperava '");
            push_str_chars(out, expected.as_str());
            push_str_chars(out, "' e a região correspondente agora é '");
            push_str_chars(out, found.as_str());
            push_str_chars(out, "'");
            assert(out@ =~= start + failure_body(*f));
        },
        HarnessFailure::SelectorAmbiguous { key, matches } => {
            push_str_chars(out, "seletor ambíguo: '");
            push_str_chars(out, key.as_str());
            push_str_chars(out, "' corresponde a ");
            push_decimal(out, *matches as u64);
            push_str_chars(out, " regiões");
            assert(out@ =~= start + failure_body(*f));
        },
        HarnessFailure::OverrideNotConsumed { key } => {
            push_str_chars(out, "override '");
            push_str_chars(out, key.as_str());
            push_str_chars(out, "' não consumido");
            assert(out@ =~= start + failure_body(*f));
        },
        HarnessFailure::PathChanged { key, expected, found } => {
            push_str_chars(out, "path alterado na região '");
            push_str_chars(out, key.as_str());
            push_str_chars(out, "': esperado '");
            push_str_chars(out, expected.as_str());
            push_str_chars(out, "', encontrado '");
            push_str_chars(out, found.as_str());
            push_str_chars(out, "'");
            assert(out@ =~= start + failure_body(*f));
        },
        HarnessFailure::MetadataChanged { key, field, expected, found } => {
            push_str_chars(out, "metadata alterada na região '");
            push_str_chars(out, key.as_str());
            push_str_chars(out, "': '");
            push_str_chars(out, field.as_str());
            push_str_chars(out, "' esperado '");
            push_str_chars(out, expected.as_str());
            push_str_chars(out, "', encontrado '");
            push_str_chars(out, found.as_str());
            push_str_chars(out, "'");
            assert(out@ =~= start + failure_body(*f));
        },
        HarnessFailure::OverrideStaleSummary { key, expected, found } => {
            push_str_chars(out, "summary corrente da região '");
            push_str_chars(out, key.as_str());
            push_str_chars(out, "' divergente: esperado '");
            push_str_chars(out, expected.as_str());
            push_str_chars(out, "', encontrado '");
            push_str_chars(out, found.as_str());
            push_str_chars(out, "'");
            assert(out@ =~= start + failure_body(*f));
        },
        HarnessFailure::FieldNotAllowedForOp { op, field } => {
            push_str_chars(out, "campo '");
            push_str_chars(out, field.as_str());
            push_str_chars(out, "' não pertence à operação '");
            push_str_chars(out, op.as_str());
            push_str_chars(out, "'");
            assert(out@ =~= start + failure_body(*f));
        },
        HarnessFailure::OverrideRegionPairInvalid { key, msg } => {
            push_str_chars(out, "override-region de '");
            push_str_chars(out, key.as_str());
            push_str_chars(out, "' inválido: ");
            push_str_chars(out, msg.as_str());
            assert(out@ =~= start + failure_body(*f));
        },
        HarnessFailure::OverrideStaleBase { key, expected, found } => {
            push_str_chars(out, "base do override '");
            push_str_chars(out, key.as_str());
            push_str_chars(out, "' divergente: esperado '");
            push_str_chars(out, expected.as_str());
            push_str_chars(out, "', encontrado '");
            push_str_chars(out, found.as_str());
            push_str_chars(out, "'");
            assert(out@ =~= start + failure_body(*f));
        },
        HarnessFailure::ExclusionNoMatch { selector } => {
            push_str_chars(out, "exclusão sem correspondência para o seletor '");
            push_str_chars(out, selector.as_str());
            push_str_chars(out, "'");
            assert(out@ =~= start + failure_body(*f));
        },
        HarnessFailure::DuplicateSnapshot { id } => {
            push_str_chars(out, "snapshot duplicado: '");
            push_str_chars(out, id.as_str());
            push_str_chars(out, "'");
            assert(out@ =~= start + failure_body(*f));
        },
        HarnessFailure::DuplicateRecipe { id } => {
            push_str_chars(out, "receita duplicada: '");
            push_str_chars(out, id.as_str());
            push_str_chars(out, "'");
            assert(out@ =~= start + failure_body(*f));
        },
        HarnessFailure::BaseSnapshotMissing { id } => {
            push_str_chars(out, "base_snapshot '");
            push_str_chars(out, id.as_str());
            push_str_chars(out, "' não existe entre os snapshots");
            assert(out@ =~= start + failure_body(*f));
        },
        HarnessFailure::RecipeMissing { id } => {
            push_str_chars(out, "receita '");
            push_str_chars(out, id.as_str());
            push_str_chars(out, "' não existe");
            assert(out@ =~= start + failure_body(*f));
        },
        HarnessFailure::CompositionCycle { path } => {
            push_str_chars(out, "ciclo no grafo de composição: ");
            push_str_chars(out, path.as_str());
            assert(out@ =~= start + failure_body(*f));
        },
        HarnessFailure::BaseMeasuresDiverged { id, expected, observed } => {
            push_str_chars(out, "base '");
            push_str_chars(out, id.as_str());
            push_str_chars(out, "' não bate com as próprias medidas: esperado regioes=");
            push_decimal(out, expected.regions as u64);
            push_str_chars(out, " comprimento=");
            push_decimal(out, expected.length as u64);
            push_str_chars(out, " ");
            push_fnv_canonical(out, expected.fnv1a64);
            push_str_chars(out, ", observado regioes=");
            push_decimal(out, observed.regions as u64);
            push_str_chars(out, " comprimento=");
            push_decimal(out, observed.length as u64);
            push_str_chars(out, " ");
            push_fnv_canonical(out, observed.fnv1a64);
            assert(out@ =~= start + failure_body(*f));
        },
        HarnessFailure::FrozenDependsOnCandidate { frozen, candidate } => {
            push_str_chars(out, "snapshot congelado '");
            push_str_chars(out, frozen.as_str());
            push_str_chars(out, "' depende do candidato '");
            push_str_chars(out, candidate.as_str());
            push_str_chars(out, "'");
            assert(out@ =~= start + failure_body(*f));
        },
        HarnessFailure::RecipeHasSnapshotField { field } => {
            push_str_chars(out, "receita declara '");
            push_str_chars(out, field.as_str());
            push_str_chars(out, "', que pertence a snapshot: receita não tem medidas, estado nem predecessor");
            assert(out@ =~= start + failure_body(*f));
        },
        HarnessFailure::CapabilityRequiresSchema { authority, capability, found_schema, required_schema } => {
            push_str_chars(out, "'");
            push_str_chars(out, capability.as_str());
            push_str_chars(out, "' exige schema ");
            push_decimal(out, *required_schema as u64);
            push_str_chars(out, " de ");
            push_str_chars(out, authority.as_str());
            push_str_chars(out, "; o arquivo declara schema ");
            push_decimal(out, *found_schema as u64);
            assert(out@ =~= start + failure_body(*f));
        },
        HarnessFailure::SelfBase { id } => {
            push_str_chars(out, "snapshot '");
            push_str_chars(out, id.as_str());
            push_str_chars(out, "' declara a si mesmo como base");
            assert(out@ =~= start + failure_body(*f));
        },
        HarnessFailure::RecipeSelfStep { id } => {
            push_str_chars(out, "receita '");
            push_str_chars(out, id.as_str());
            push_str_chars(out, "' declara a si mesma como passo");
            assert(out@ =~= start + failure_body(*f));
        },
        HarnessFailure::ExclusionPartiallyConsumed { selector, expected, consumed } => {
            push_str_chars(out, "exclusão parcialmente consumida em '");
            push_str_chars(out, selector.as_str());
            push_str_chars(out, "': esperado ");
            push_decimal(out, *expected as u64);
            push_str_chars(out, ", consumido ");
            push_decimal(out, *consumed as u64);
            assert(out@ =~= start + failure_body(*f));
        },
        HarnessFailure::MaterializationMissing { declared, found } => {
            push_str_chars(out, "materialização ausente: expected_materializations = ");
            push_decimal(out, *declared as u64);
            push_str_chars(out, ", encontradas ");
            push_decimal(out, *found as u64);
            assert(out@ =~= start + failure_body(*f));
        },
        HarnessFailure::MaterializationExcess { declared, found } => {
            push_str_chars(out, "materialização excedente: expected_materializations = ");
            push_decimal(out, *declared as u64);
            push_str_chars(out, ", encontradas ");
            push_decimal(out, *found as u64);
            assert(out@ =~= start + failure_body(*f));
        },
        HarnessFailure::MaterializationRepeated { key } => {
            push_str_chars(out, "região histórica '");
            push_str_chars(out, key.as_str());
            push_str_chars(out, "' materializada duas vezes: um fato, uma autoridade");
            assert(out@ =~= start + failure_body(*f));
        },
        HarnessFailure::MaterializationCollision { key } => {
            push_str_chars(out, "região '");
            push_str_chars(out, key.as_str());
            push_str_chars(out, "' já existe no estado: a materialização histórica não sobrescreve nem funde");
            assert(out@ =~= start + failure_body(*f));
        },
        HarnessFailure::OperationOutsideAuthority { authority, op } => {
            push_str_chars(out, "operação '");
            push_str_chars(out, op.as_str());
            push_str_chars(out, "' não existe na autoridade de ");
            push_str_chars(out, authority.as_str());
            assert(out@ =~= start + failure_body(*f));
        },
    }
}

/// The full text of a failure: code, newline, explanation.
pub open spec fn failure_message(f: HarnessFailure) -> Seq<char> {
    failure_code(f) + "\n"@ + failure_body(f)
}

impl HarnessFailure {
    /// The text of the failure: its code on the first line, then what went
    /// wrong.
    pub fn message(&self) -> (s: String)
        ensures
            s@ == failure_message(*self),
    {
        let mut out: Vec<char> = Vec::new();
        push_str_chars(&mut out, self.code());
        push_str_chars(&mut out, "\n");
        push_failure_body(&mut out, self);
        string_from(&out)
    }
}

/// The message of any failure whose view is `f`: the message depends on the
/// view alone.
pub open spec fn failure_text(f: super::FailureView) -> Seq<char> {
    failure_message(choose|e: HarnessFailure| super::failure_view(e) == f)
}

#[verifier::rlimit(60)]
proof fn lemma_message_by_view(a: HarnessFailure, b: HarnessFailure)
    requires
        super::failure_view(a) == super::failure_view(b),
    ensures
        failure_message(a) == failure_message(b),
{
}

/// The message of a failure is the text of its view.
pub proof fn lemma_failure_text(e: HarnessFailure)
    ensures
        failure_text(super::failure_view(e)) == failure_message(e),
{
    let c = choose|x: HarnessFailure| super::failure_view(x) == super::failure_view(e);
    lemma_message_by_view(c, e);
}

} // verus!
